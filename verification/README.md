# lib: verified core of a CFDP file transfer application

The library holds the logic of a CFDP (CCSDS File Delivery Protocol) application,
written in Verus and proved against its contracts:

- `codec`, `codec_laws`: encoding and decoding of PDUs (headers, directives, LV/TLV
  fields, segment lists) over byte buffers, and the round-trip laws between them.
- `crc`: the CFDP file checksum, computed a piece at a time, with its closed form.
- `chunk`: sorted, merged chunk lists of file ranges, with gap computation.
- `clist`: circular doubly linked lists over a node table, with traversals.
- `utils`: a channel's transaction queues on those lists, with the queue sizes kept
  right, searches by sequence number and priority, and traversal of all transactions.
- `queue_write`: writing the entries of a channel's queues to a file: which entries,
  in what order, and where a failed write stops (the write of one entry is the host's).
- `sbintf`: counting sent PDUs, and the steps of getting an outgoing message buffer.
- `cfdp`: transaction statuses and condition codes, temporary and move-target names.
- `timer`, `cmd`, `dispatch`, `app`, `app_data`: timers, ground commands, message
  routing, and the start-up, table and main-loop decisions with their housekeeping
  counters. Start-up and the table check are step functions: each step names the
  executive service to call next, and the host hands back its status.
- `test_utils`: fixed value pickers and fixtures used by the tests.

`tests/` exercises the library; `app/` runs the main loop against executive services
that a host provides.
