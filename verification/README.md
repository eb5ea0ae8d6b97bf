# shiku_home

The bookkeeping core of the shiku world home server, written in Verus and
verified: terrain geometry, keyed collections, blueprint file classification
and editing, object type reading, and the membership of game instances.

- `src/` is the verified library. Each module states its behaviour in
  `requires`/`ensures` over spec functions and views; laws that relate
  several operations are public proof functions.
- `tests/` runs the library on concrete values.
- `app/` holds what the library does not: files on disk, the serde copies of
  the blueprint types, and the floating-point timers of game instances.
  The physics bodies of the terrain polylines are not part of it: the
  library hands out the polylines it traces and releases, and a physics
  engine adds and removes their bodies.

Modules of `src/`:

| module | what it holds |
| --- | --- |
| `ring` | a vector indexed modulo its length |
| `terrain` | point-in-polygon, tile outlines and edges, surface tests, gid/chunk relations |
| `terrain_grid` | the grid of placed terrain tiles and its open surface edges |
| `polyline_tracing` | tracing the open surface edges into polylines |
| `polyline_removal` | releasing the polylines around a chunk before it is rewritten |
| `terrain_writes` | writing chunks into the terrain, setting it up, collision shape changes |
| `blueprint`, `blueprint_ops` | blueprint types, gid numbering, chunk updates, image lists |
| `file_kind` | classifying blueprint files by name, listing a browsed directory |
| `json_resource` | paths of resources stored as JSON |
| `conductor` | dropping module connections whose ends were removed |
| `resource_modules` | which modules use each resource, kept up to date as modules change |
| `entity_communication` | subscriptions between entities, queued messages, last published values |
| `sessions` | new websocket connections of guests and admins, provider logins and takeovers, reconnect notices |
| `module_routing` | which guests get entity news, where module events go |
| `map_terrain` | chunk updates of a game map's terrain layers |
| `tileset_update` | editor edits of tilesets |
| `resource_loading` | what clients load for a resource |
| `object_types` | reading map editor object types from XML events |
| `object_variants` | the tile ids and gids of object variants, and which tilesets hold them |
| `resource_listing` | the resources a module loads for the tilesets of a map |
| `script_functions` | engine functions a game node script defines |
| `lazy_set`, `managed_map` | keyed collections |
| `guest`, `visibility`, `module_events` | actors, hidden entities, module events, guest buttons |
| `instances` | game instances of a module: entering, leaving, admins, worlds |
| `render`, `util` | render settings from map objects, small helpers |
