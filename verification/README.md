# universal_gpx_poi

Converts the points of interest (waypoints) of GPX files between the
vocabularies of Garmin and Suunto devices. Every waypoint that is a child of
the root element gets in `<type>` the value of the target vendor for its
`<sym>` or `<type>`; everything else in the file is written back as it was
read. The library is verified with Verus.

## Layout

- `src/` — the verified library
  - `text.rs`: white space, the comparison key of names (`normalize`)
  - `poi.rs`: the dictionary, lookup (`find`) and translation (`translate`)
  - `dictionary_keys.rs`: the keys of the dictionary's values are distinct;
    a translated value translates to itself again
  - `xml.rs`: XML events as values, their markup, and the trusted calls into
    `quick_xml` (reader, escaping, unescaping)
  - `gpx.rs`: reading a waypoint's children, replacing or inserting the
    `<type>` child, and the conversion of a whole document (`convert_gpx`)
  - `child_laws.rs`: giving a child a value twice changes nothing more, and
    keeps the children in the order of the GPX schema
  - `report.rs`: the conversion report, with its unknown values kept sorted
  - `laws.rs`: properties of the conversion as a whole
  - `cli.rs`: the decisions of the command-line program (arguments, answer,
    output file names, summary)
  - `web.rs`: the result handed to the browser page
- `tests/` — tests of the library
- `app/` — the command-line program (file and terminal I/O) and the
  WebAssembly binding for the browser page
