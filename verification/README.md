# stp_postmortem

Post-mortem analysis of spanning tree captures. The library takes the bytes of a
PCAP or PCAPng file, finds the bridge protocol data units (BPDUs) of STP, RSTP and
PVST+ in it, follows the bridges, roots, ports and topology changes of each VLAN,
and explains what went wrong: flapping roots, storms of topology changes, rogue
roots and suspected loops.

The functions in `src/` are verified with Verus, each against a contract that fixes
its result.

| Module | What it holds |
| --- | --- |
| `bytes`, `text` | Numbers in bytes, and the pieces of text in a report |
| `binary64`, `time` | 64-bit binary floating point as integers; times of capture |
| `pcap`, `pcapng` | The two capture formats |
| `net`, `stp` | Ethernet frames, and the BPDUs in them |
| `event`, `analyzer` | What happens in a capture, BPDU by BPDU |
| `summary`, `root_cause` | Figures, causes, verdict and plan of action |
| `report` | From the bytes of a capture to the report |
| `steps`, `history`, `causes`, `captures` | What holds of every BPDU, of any number of BPDUs, of every time line and of every capture |

Times are compared, subtracted and scaled as 64-bit binary floating point numbers,
with each rounding step stated over the integers. `Binary64::to_bits` gives the bits
of the number, for `f64::from_bits`.

Five functions of the `nom` crate read the fields of a PCAP file. They are wrapped
in `pcap`, and their contracts are taken on trust.

`app/` binds the library to JavaScript: it turns the report into a value of
floating point numbers and text, and writes to the console.
