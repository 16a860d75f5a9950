# gufo_snmp

The protocol core of an SNMP client, verified with Verus: BER encoding and
decoding of SNMP v1, v2c and v3 messages, PDUs and values, the request
identifiers, the interpretation of replies to GET, GET-MANY, GETNEXT and
GETBULK operations, and the state of walks and of SNMPv3 sessions.

Layout:

- `src/` is the verified library. Each decoder is specified by a `spec_parse_*`
  function and each encoder by an `encode_*` function over byte sequences;
  public proof functions state that decoding gives back what was encoded
  (`lemma_get_roundtrip`, `lemma_pdu_roundtrip`, `lemma_message_roundtrip`,
  `lemma_v3_roundtrip`, `lemma_dotted_roundtrip`, ...).
- `tests/` runs the library on concrete messages.
- `app/` is the Python extension module: UDP sockets, the Python classes and
  the conversion of decoded values into Python objects.
