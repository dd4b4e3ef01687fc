# snac_rs

The core of a stub-network router: IPv6/IPv4 wire checks, IPv4 fragmentation and
reassembly, DHCPv4 and DHCPv6 configuration, IPv4 mDNS datagrams and the mDNS cache, the
DNS-SD discovery proxy, upstream resolver discovery and privacy policy, browsing-domain
enumeration, the forwarding DNS resolver and the bookkeeping of the DNS service around it,
NAT64 prefix selection and the ICMP and TCP pieces of NAT64 translation, and the persistent
identity and journal. Every function of the library carries a contract that is proved.

Layout:

- `src/` — the library and its proofs.
- `tests/` — tests run against the compiled library.
- `app/` — the command-line program and the file, device and network plumbing.
