# fmad

A fridge-side recipe bot. When the fridge reports over its serial link that
its door is open, or when someone uses the `/fmad` slash command, the bot
ranks the known recipes by how many of their ingredients are at hand and
posts one recipe card per recipe, best match first; arrow reactions page
through the cards.

- `src/` is the verified library: reading ingredient lists, ranking and
  ordering recipes, building the recipe and `ping` cards, the slash commands,
  page navigation on reactions, reading the fridge's serial chunks and
  configured ids. Contracts and laws are checked by Verus.
- `app/` is the bot program around it: the chat service client, CSV files,
  environment, and the serial port.
