# dpetoolbox

A toolbox for datapath analysis: it merges, filters, converts and summarises
packet captures, downloads capture sets, pings TCP ports and computes IPv4
subnets, from the command line or from a small web UI.

The library in `src/` holds the toolbox's logic, verified with Verus: the
parsers of `tshark` and `capinfos` output, the subnet calculator, version
ordering for update notices, the grouping of captures by address, download
naming, the job table of the web UI and its HTML, and the decisions and
reports of every tool, down to how each run of `mergecap` or `etl2pcapng` is
judged, counted and logged. Calls into `regex`, `uuid`, `chrono` and `str::to_lowercase`
stand behind small trusted functions whose contracts say what is assumed of
them. Sizes that `tshark` prints in decimal are read as the nearest binary
double and scaled as doubles scale; `src/binary.rs` models that rounding with
integers and proves the computation against it.

`app/` is the program around the library: argument parsing, prompts, running
Wireshark's tools, azcopy and etl2pcapng, the file system, the HTTP server and
the floating-point speed figures.

`tests/` runs the library on concrete values.
