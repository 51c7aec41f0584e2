# cs2-server-chooser

A chooser for the Steam Datagram Relay points of presence (POPs) that the game
may use: the user allows some POPs, and the relays of all other POPs are
blocked with iptables rules kept in a chain of their own.

- `src/` is the verified library (Verus): the POP list built from Valve's relay
  configuration, the selection and its invariants, the list filter, the
  iptables plan, the protocol that applies or removes the rules, the grouping
  of overlapping map points, the world outlines read from the GeoJSON map,
  file locations on Unix and Windows and the saved selection's text.
- `app/` is the egui program around it: windows, the map's floating-point
  geometry, HTTP, files, environment variables and running `sudo iptables`.
- `tests/` exercises the library on concrete values.
