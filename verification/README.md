# tailscale_portal

A small web portal for a Tailscale tailnet: it lists the devices of each
user with the services configured for their hosts, keeps a quick list of the
services that can be reached now, and lets the list of services be edited.

- `src/` is the verified library (Verus):
  - `text.rs`: prefix tests, the order of `String`s, decimal notation;
  - `models/service.rs`: configured services and the forms that change them;
  - `models/tailscale.rs`: the tailnet's status, and the `LastSeen` instant
    read and written with chrono;
  - `views.rs`: the device views, the stable sort of each user's devices,
    the grouping by user and the quick list of services;
  - `manage.rs`: adding and removing services, and the hosts a new service
    may be placed on;
  - `portal_laws.rs`: properties that span those functions.
- `app/` is the web server (axum, askama, tokio): it runs `tailscale status
  --json`, reads and writes `config/services.toml`, and renders the pages.
- `tests/` runs the library on concrete values.
