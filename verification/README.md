# rist

RIST (Reliable Internet Stream Transport, VSF TR-06-1:2020 Simple Profile) in
Rust, verified with Verus.

RIST carries MPEG-TS over RTP and recovers lost packets by retransmission: the
receiver finds gaps in the sequence numbers, asks for the missing packets over
RTCP, and holds what arrives in a reorder buffer until the gaps are filled or
the hold time is over.

## Layout

- `src/`: the verified library. It does no I/O and reads no monotonic clock:
  callers hand it datagrams and instants, and send what it returns.
  - `packet/`: RTP and RTCP formats, each with a parser, a serializer and the
    law that one undoes the other.
  - `protocol/`: the retransmit ring, the NACK scheduler and what it asks for
    over a whole run, the reorder buffer and what it delivers over a whole run,
    the RTT estimator, RTCP report state, and the SMPTE 2022-7 merger.
  - `transport/`: the sender and the receiver session built from these, with the
    admission rules that keep a live session with its peer.
  - `gre/`, `crypto/`: types of the Main Profile.
  - `octets.rs`, `text.rs`, `time.rs`, `serial.rs`: byte buffers of the `bytes`
    crate, text, clock readings, and 16-bit serial arithmetic.
- `app/`: the tokio transport around the library: sockets, tasks, the delivery
  thread, shared counters, and what is computed in floating point.
- `tests/`: tests of the library.

## What is proved

Every executable function of the library states its result exactly over the
views of its types, but for those that read the wall clock or draw a random
number: of `SystemTime::now` and `fresh_seq` nothing holds in every case, of
`fresh_ssrc` only that the number is even, and the sessions' `start`,
`generate_sr` and the sender's `on_tick` say that there is such a time or number.
Beside each of these stands a function that takes the time or the number and is
exact. Beyond single calls, functions named `law_..` state what
holds across them, among others:

- every packet format reads back as it was written (`packet/`);
- over any run of arrivals and drains, packets are delivered in strict sequence
  order, none twice, each the first copy that arrived for its place, and only
  what has not arrived is reported as lost (`protocol/delivery.rs`);
- over any run of a NACK scheduler, a missed packet is asked for at most as often
  as configured, and only until it comes (`protocol/requests.rs`);
- a NACK is packed into as few entries as can name the lost packets
  (`packet/nack_cover.rs`);
- one RTCP datagram, however much it asks for, is answered with the first of the
  packets it names that are still held, up to a bounded amount of work, and a
  live session is not taken over by another host (`transport/`);
- a lost packet that the sender still holds is sent again when it is asked for,
  and fills its gap with the payload that was lost (`transport/receiver.rs`).

The functions marked `external_body`, and one `assume_specification`, are
trusted: each calls one function of `bytes`, `rand` or the standard library, and
says in its comment what is taken for granted of it.
