# bot_core

The verified core of a trading bot service.

- `src/core_manager.rs`: the registry of users and their trading cores, with
  its model (`ManagerView`), the operations on it and their laws.
- `src/service.rs`: what the service answers to start, update and stop
  requests, and how signals are tagged and streamed.
- `src/stream_config.rs`: the bot configuration: coin list, stream type codes,
  exchange endpoints, and the checks on the bot's C inputs.
- `src/market.rs`: the market snapshot, the strategies it allows, and the
  selection of tickers for the followed coins.
- `src/text.rs`: decimal rendering, trimming, splitting, substring search,
  case mapping and integer parsing.
- `app/`: the tasks, channels and websocket streams around the library, and
  the C entry points of the bot.
