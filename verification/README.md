# localns

A DNS server for a local network. It collects the names of hosts from DHCP leases, docker
containers, traefik routers, zone files and other servers of its kind, answers queries about them,
and forwards all other queries to the servers that are configured for them.

- `src/` is the library: names and addresses, the configuration of zones, the sets and the store of
  records, the resolution of a query, and what each source makes of what it reads. It is verified
  with Verus. Each function states its result in `ensures`, over the labels of names and sequences
  of records; properties of several functions are proof functions whose names start with `law_`.
- `app/` is the program: sockets, HTTP, files, the docker client and the command line. It asks the
  library what to do next and does it.
- `tests/` runs the library on concrete values.

What the library takes from other crates without proof (the parsing and writing of names, addresses
and URLs, digests and the clock) stands behind small functions whose comments say what is relied on.
