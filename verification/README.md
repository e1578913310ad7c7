# ber_encoding

Identifier (tag) and length octets of ASN.1 BER (ITU-T X.690), with
contracts and proofs checked by Verus.

- `src/tag.rs`: `Tag` and `TagClass`; short-form identifiers for tag numbers
  below 31, base-128 long form above. The spec functions `tag_octets` and
  `tag_decoding` say exactly what is written and what is read back.
- `src/length.rs`: `Length`, definite (short and long form) and indefinite;
  `length_octets` and `length_decoding` likewise.
- `src/error.rs`: `BerError`, its messages, and the kinds of I/O error.
- `src/input.rs`: how a decoding outcome is answered, and reading one octet
  off a byte slice.
- `src/traits.rs`: `BerTag`, `BerEncode` and `BerDecode` for element types.
- `app/lib.rs`: the same encoders and decoders over `std::io::Write` and
  `std::io::Read`.

Proved laws: reading back what was written gives the same tag or length and
takes exactly its octets (`lemma_tag_round_trip`, `lemma_length_round_trip`);
both are written in the fewest octets (`lemma_tag_octets_shortest`,
`lemma_length_octets_shortest`); and decoding reads no further than it must
(`lemma_tag_decoding_prefix`, `lemma_length_decoding_prefix`).
