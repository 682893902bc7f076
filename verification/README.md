# alarmservice

The verified core of an event-sourced alarm service. Two services keep, per
reference id, a small state folded from the events that concern them:

- service A counts the events of each reference and remembers when the last
  one happened;
- service B sums the `value_field` of events of type
  `SERVICE_B_RELEVANT_EVENT` and remembers when the last one happened.

`src/` holds the logic and its proofs (Verus): applying events, late-event
detection, snapshots and their restoration, and rebuilding the state of a
reference at an earlier instant from a snapshot and the event log. The laws
that tie these together (live state equals replay, a rebuild resumed from a
consistent snapshot equals a rebuild from scratch whatever the order of the
log, rows of other references or outside the queried window leave a rebuild
unchanged, and so, for service B, do rows of other types) are
public proof functions next to the services.

`app/` runs the services: the database tables and migrations, the snapshot
store, the event loops and the snapshot timers.
