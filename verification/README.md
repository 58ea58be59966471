# belka

A macOS menu-bar app that keeps an SSH tunnel open and offers it as a SOCKS5 and
an HTTP proxy, with an editor for its profiles, a browser that is locked to the
proxy, and an editor for the users of a pfSense router.

* `src/` holds the rules, proved with Verus: the SOCKS5 handshake (`socks`), HTTP
  request heads and the dialogue with a client (`http`, `exchange`), the life of
  the tunnel (`tunnel`, `hostkey`), profiles and their editor (`config`,
  `editor`, `config_watcher`), the menu and the desktop (`menu`, `about`,
  `autolaunch`, `applescript`, `updater`), the browser (`firefox`,
  `policy_tree`), and the users of the router (`pfusers`), which are read from
  `config.xml` and changed in place, byte for byte (`xml`, `tree`, `edit`).
* `app/` is the program around it: sockets, files, windows, processes.
* `tests/` runs the library on concrete values.

What is taken on trust stands in `src/` under `#[verifier::external_body]` or
`assume_specification`, each with a comment that names the outside function.
