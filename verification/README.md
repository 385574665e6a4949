# smithe_lib

Head-to-head records and set statistics of tournament players.

`src/` is the library, verified with Verus:

- `sightings` reads from the start.gg responses which names which players entered under;
- `names` keeps tables between names and players;
- `head_to_head` adds the rows of the database up for each opponent, and `head_to_head_laws`
  states what holds of every such record;
- `h2h_query` writes the requests to start.gg and keeps track of what is still to be asked for;
- `sets`, `slots` and `competitor` hold the rules on cached sets, on the two sides of a set and
  on the events of a player;
- `json` and `decimal` model JSON documents and decimal numbers.

`app/` connects the library to PostgreSQL and to start.gg.
