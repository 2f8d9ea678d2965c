# fitslook

A FITS file viewer whose file handling is a library verified with Verus.

`src/` is the library: header cards (formatting and parsing), the keyword
table of a header, the walk over the HDUs of a file (headers in 2880-byte
blocks, image and table data, tile-compressed images: NOCOMPRESS and
RICE_1 tiles read from the table and its heap, GZIP and ZLIB streams
inflated), binary and ASCII
table cells, pixel decoding, writing a copy of a file with edited headers,
`file://` URIs, and the choices the viewer makes (which HDU to show first,
whether an HDU is a spectrum, which header cards a search shows). Every
function there has a contract that Verus proves; the laws of the library (a
written card or header reads back as written, an edited copy never takes
the original's name, ...) are proof functions in `card_laws.rs`,
`header_laws.rs`, `file_laws.rs`, `header_map.rs`, `table_hdu.rs` and
`edit.rs`.

`app/` is the viewer around it: reading and writing files, the egui
interface, and the floating-point work (pixel scaling, ZScale, stretches,
colour maps, wavelength axes).

`tests/` runs the library on concrete files built in memory.
