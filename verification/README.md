# nilla plugin library

The verified part of nilla's plugin support, written in Verus.

- `src/text.rs`: a character-level model of the string operations used
  (trimming, lines, splitting, finding, replacing, UTF-8 lengths) and
  executable counterparts proved against it.
- `src/plugin_metadata.rs`: what a plugin's `--help` and `--version` output say
  of it: usage, commands, examples, completion support, version.
- `src/plugins.rs`: which plugins are installed: search-path splitting, plugin
  names of executables, and the first-of-each-name, name-ordered collection.
- `src/listing.rs`: the `plugins list` table, the plugin section of the help
  output, and plugin completion sections.
- `src/cli.rs`: help-request handling, log levels, shell names, and the
  `plugins` subcommand's arguments.

`app/` is the program around it: argument parsing with clap, logging, running
plugins with tokio and looking on disk.
