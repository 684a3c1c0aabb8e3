//! The text that lists plugins: the `plugins list` table, the plugin section
//! of the help output, and the completion script sections of plugins.
use vstd::prelude::*;
use crate::plugin_metadata::{commands_view, CommandInfo, PluginMetadata};
use crate::text::{
    chars_of, join, lemma_utf8_len_append, starts_with, trim, trim_range, utf8_len, utf8_len_exceeds, utf8_width,
};

verus! {

broadcast use vstd::string::group_string_axioms;

/// `n` spaces.
pub open spec fn spaces(n: nat) -> Seq<char> {
    Seq::new(n, |i: int| ' ')
}

/// `s` filled with spaces on the right to `width` characters, as the format
/// `{:<width}` writes it.
pub open spec fn pad_right(s: Seq<char>, width: nat) -> Seq<char> {
    if s.len() < width {
        s + spaces((width - s.len()) as nat)
    } else {
        s
    }
}

/// A row of the plugin table: name, path, version and completions columns,
/// 20, 50, 15 and 10 characters wide, one space apart.
pub open spec fn table_line(a: Seq<char>, b: Seq<char>, c: Seq<char>, d: Seq<char>) -> Seq<char> {
    pad_right(a, 20) + " "@ + pad_right(b, 50) + " "@ + pad_right(c, 15) + " "@ + pad_right(d, 10)
}

/// The index from which the last `n` bytes of `p` begin.
pub open spec fn byte_suffix_start(p: Seq<char>, n: nat) -> int {
    choose|k: int| 0 <= k <= p.len() && utf8_len(p.skip(k)) == n
}

/// A path can be shortened to its last 45 bytes: it is short enough to be
/// shown whole, or its last 45 bytes are whole characters.
pub open spec fn path_display_fits(p: Seq<char>) -> bool {
    utf8_len(p) > 48 ==> exists|k: int| 0 <= k <= p.len() && utf8_len(p.skip(k)) == 45
}

/// A path as the plugin table shows it: whole up to 48 bytes, else `...` and
/// its last 45 bytes.
pub open spec fn display_path(p: Seq<char>) -> Seq<char> {
    if utf8_len(p) > 48 {
        "..."@ + p.skip(byte_suffix_start(p, 45))
    } else {
        p
    }
}

/// The version column: the version, or `unknown`.
pub open spec fn version_cell(v: Option<Seq<char>>) -> Seq<char> {
    match v {
        Some(s) => s,
        None => "unknown"@,
    }
}

/// The completions column.
pub open spec fn completions_cell(b: bool) -> Seq<char> {
    if b {
        "yes"@
    } else {
        "no"@
    }
}

/// The entry of one plugin in the help output's plugin section.
pub open spec fn plugin_help_entry(
    name: Seq<char>,
    usage: Option<Seq<char>>,
    command_names: Seq<Seq<char>>,
    examples: Seq<Seq<char>>,
) -> Seq<char> {
    "  "@ + name + "\n"@ + match usage {
        Some(u) => "    "@ + u + "\n"@,
        None => Seq::empty(),
    } + if command_names.len() > 0 {
        "    Commands: "@ + join(command_names, ", "@) + "\n"@
    } else {
        Seq::empty()
    } + if examples.len() > 0 {
        "    Examples: "@ + join(examples, "; "@) + "\n"@
    } else {
        Seq::empty()
    } + "\n"@
}

/// The names of the commands `cs`.
pub open spec fn command_names(cs: Seq<(Seq<char>, Seq<char>)>) -> Seq<Seq<char>> {
    cs.map_values(|c: (Seq<char>, Seq<char>)| c.0)
}

/// The section of a completion script that a plugin's completion output adds,
/// if the output holds more than whitespace.
pub open spec fn completion_block(plugin: Seq<char>, output: Seq<char>) -> Option<Seq<char>> {
    if trim(output).len() > 0 {
        Some("\n# Completions for plugin: "@ + plugin + "\n"@ + output)
    } else {
        None
    }
}

/// `s` filled with spaces on the right to `width` characters.
pub fn pad_right_to(s: &str, width: usize) -> (res: String)
    ensures
        res@ == pad_right(s@, width as nat),
{
    let mut out = String::from_str(s);
    let len = s.unicode_len();
    let mut k = len;
    proof {
        reveal_strlit(" ");
    }
    assert(out@ =~= s@ + spaces(0));
    while k < width
        invariant
            len == s@.len(),
            len <= k <= width || (k == len && len >= width),
            out@ == s@ + spaces((k - len) as nat),
            " "@ == seq![' '],
        decreases width - k,
    {
        out.append(" ");
        assert(spaces((k - len) as nat) + " "@ =~= spaces((k + 1 - len) as nat));
        k = k + 1;
    }
    if len >= width {
        assert(out@ =~= s@);
    }
    out
}

proof fn lemma_utf8_len_cons(c: char, t: Seq<char>)
    ensures
        utf8_len(seq![c] + t) == utf8_width(c) + utf8_len(t),
    decreases t.len(),
{
    if t.len() > 0 {
        lemma_utf8_len_cons(c, t.drop_last());
        assert((seq![c] + t).drop_last() =~= seq![c] + t.drop_last());
        assert((seq![c] + t).last() == t.last());
    } else {
        assert((seq![c] + t).drop_last() =~= Seq::<char>::empty());
        assert((seq![c] + t).last() == c);
        assert(utf8_len(Seq::<char>::empty()) == 0);
    }
}

proof fn lemma_utf8_len_suffix_step(p: Seq<char>, k: int)
    requires
        0 <= k < p.len(),
    ensures
        utf8_len(p.skip(k)) == utf8_width(p[k]) + utf8_len(p.skip(k + 1)),
{
    lemma_utf8_len_cons(p[k], p.skip(k + 1));
    assert(p.skip(k) =~= seq![p[k]] + p.skip(k + 1));
}

/// Longer suffixes take more bytes.
proof fn lemma_utf8_len_suffix_decreasing(p: Seq<char>, k1: int, k2: int)
    requires
        0 <= k1 < k2 <= p.len(),
    ensures
        utf8_len(p.skip(k1)) > utf8_len(p.skip(k2)),
    decreases k2 - k1,
{
    lemma_utf8_len_suffix_step(p, k1);
    if k1 + 1 < k2 {
        lemma_utf8_len_suffix_decreasing(p, k1 + 1, k2);
    }
}

/// The path as the plugin table shows it: whole up to 48 bytes, else `...`
/// and its last 45 bytes.
pub fn display_path_of(path: &str) -> (res: String)
    requires
        path_display_fits(path@),
    ensures
        res@ == display_path(path@),
{
    let cs = chars_of(path);
    let n = cs.len();
    assert(cs@.subrange(0, n as int) =~= cs@);
    if !utf8_len_exceeds(&cs, 0, n, 48) {
        return String::from_str(path);
    }
    let mut j = n;
    let mut total: usize = 0;
    assert(cs@.skip(n as int) =~= Seq::<char>::empty());
    while j > 0 && total < 45
        invariant
            j <= n == cs@.len(),
            total == utf8_len(cs@.skip(j as int)),
            total < 49,
            j < n ==> utf8_len(cs@.skip(j + 1)) < 45,
        decreases j,
    {
        proof {
            lemma_utf8_len_suffix_step(cs@, j - 1);
        }
        let u = cs[j - 1] as u32;
        let w: usize = if u < 0x80 {
            1
        } else if u < 0x800 {
            2
        } else if u < 0x10000 {
            3
        } else {
            4
        };
        total = total + w;
        j = j - 1;
    }
    proof {
        let k = byte_suffix_start(cs@, 45);
        assert(0 <= k <= cs@.len() && utf8_len(cs@.skip(k)) == 45);
        assert(cs@.skip(0) =~= cs@);
        if k < j {
            lemma_utf8_len_suffix_decreasing(cs@, k, j as int);
        } else if k > j {
            if j + 1 < k {
                lemma_utf8_len_suffix_decreasing(cs@, j + 1, k);
            }
        }
        assert(k == j);
        assert(cs@.skip(j as int) =~= cs@.subrange(j as int, n as int));
    }
    let mut out = String::from_str("...");
    out.append(path.substring_char(j, n));
    out
}

/// One row of the plugin table.
pub fn table_row(a: &str, b: &str, c: &str, d: &str) -> (res: String)
    ensures
        res@ == table_line(a@, b@, c@, d@),
{
    let mut out = pad_right_to(a, 20);
    out.append(" ");
    out.append(pad_right_to(b, 50).as_str());
    out.append(" ");
    out.append(pad_right_to(c, 15).as_str());
    out.append(" ");
    out.append(pad_right_to(d, 10).as_str());
    out
}

/// The head row of the plugin table.
pub fn plugin_table_header() -> (res: String)
    ensures
        res@ == table_line("NAME"@, "PATH"@, "VERSION"@, "COMPLETIONS"@),
{
    table_row("NAME", "PATH", "VERSION", "COMPLETIONS")
}

/// The rule below the head row of the plugin table: 95 dashes.
pub fn plugin_table_rule() -> (res: String)
    ensures
        res@ == Seq::new(95, |i: int| '-'),
{
    let mut out = String::new();
    let mut k: usize = 0;
    proof {
        reveal_strlit("-");
    }
    while k < 95
        invariant
            k <= 95,
            out@ == Seq::new(k as nat, |i: int| '-'),
            "-"@ == seq!['-'],
        decreases 95 - k,
    {
        out.append("-");
        assert(Seq::new(k as nat, |i: int| '-') + "-"@ =~= Seq::new((k + 1) as nat, |i: int| '-'));
        k = k + 1;
    }
    out
}

/// The row of the plugin table for the plugin `name` at `path`, with what its
/// metadata says of its version and completions.
pub fn plugin_table_row(name: &str, path: &str, metadata: &PluginMetadata) -> (res: String)
    requires
        path_display_fits(path@),
    ensures
        res@ == table_line(
            name@,
            display_path(path@),
            version_cell(metadata.version.deep_view()),
            completions_cell(metadata.supports_completions),
        ),
{
    let shown = display_path_of(path);
    let version = match &metadata.version {
        Some(v) => v.as_str(),
        None => "unknown",
    };
    let completions = if metadata.supports_completions {
        "yes"
    } else {
        "no"
    };
    table_row(name, shown.as_str(), version, completions)
}

/// The items of `list` with `sep` between each two.
pub fn join_strings(list: &Vec<String>, sep: &str) -> (res: String)
    ensures
        res@ == join(list.deep_view(), sep@),
{
    let ghost items = list.deep_view();
    let mut out = String::new();
    let mut i: usize = 0;
    assert(items.take(0) =~= Seq::<Seq<char>>::empty());
    while i < list.len()
        invariant
            i <= list@.len(),
            items == list.deep_view(),
            items.len() == list@.len(),
            out@ == join(items.take(i as int), sep@),
        decreases list@.len() - i,
    {
        assert(items.take(i + 1).drop_last() =~= items.take(i as int));
        assert(items[i as int] == list@[i as int]@);
        if i > 0 {
            out.append(sep);
        } else {
            assert(items.take(1) =~= seq![items[0]]);
        }
        out.append(list[i].as_str());
        i = i + 1;
    }
    assert(items.take(i as int) =~= items);
    out
}

/// The names of `commands`, in order.
fn names_of(commands: &Vec<CommandInfo>) -> (res: Vec<String>)
    ensures
        res.deep_view() == command_names(commands_view(commands@)),
{
    let mut out: Vec<String> = Vec::new();
    let mut i: usize = 0;
    while i < commands.len()
        invariant
            i <= commands@.len(),
            out.deep_view() == command_names(commands_view(commands@)).take(i as int),
        decreases commands@.len() - i,
    {
        let ghost before = out.deep_view();
        out.push(commands[i].name.clone());
        assert(out.deep_view() =~= before.push(commands@[i as int].name@));
        assert(command_names(commands_view(commands@)).take(i + 1) =~= command_names(
            commands_view(commands@),
        ).take(i as int).push(commands@[i as int].name@));
        i = i + 1;
    }
    assert(command_names(commands_view(commands@)).take(i as int) =~= command_names(
        commands_view(commands@),
    ));
    out
}

/// The entry of the plugin `name` in the help output's plugin section: its
/// name, then its usage, commands and examples where its metadata has them.
pub fn format_plugin_help_entry(name: &str, metadata: &PluginMetadata) -> (res: String)
    ensures
        res@ == plugin_help_entry(
            name@,
            metadata.usage.deep_view(),
            command_names(commands_view(metadata.commands@)),
            metadata.examples.deep_view(),
        ),
{
    let mut out = String::from_str("  ");
    out.append(name);
    out.append("\n");
    match &metadata.usage {
        Some(u) => {
            out.append("    ");
            out.append(u.as_str());
            out.append("\n");
        },
        None => {},
    }
    if metadata.commands.len() > 0 {
        let names = names_of(&metadata.commands);
        out.append("    Commands: ");
        out.append(join_strings(&names, ", ").as_str());
        out.append("\n");
    }
    if metadata.examples.len() > 0 {
        out.append("    Examples: ");
        out.append(join_strings(&metadata.examples, "; ").as_str());
        out.append("\n");
    }
    out.append("\n");
    out
}

/// The closing lines of the help output's plugin section.
pub fn plugins_help_footer() -> (res: String)
    ensures
        res@ == "  Use `nilla plugins list` to see all plugins with details.\n"@
            + "  Use `nilla <plugin> --help` to see plugin-specific help.\n"@,
{
    let mut out = String::from_str("  Use `nilla plugins list` to see all plugins with details.\n");
    out.append("  Use `nilla <plugin> --help` to see plugin-specific help.\n");
    out
}

/// The section that the completion output of the plugin `plugin` adds to a
/// completion script, if the output holds more than whitespace.
pub fn plugin_completion_block(plugin: &str, output: &str) -> (res: Option<String>)
    ensures
        res.deep_view() == completion_block(plugin@, output@),
{
    let cs = chars_of(output);
    let (a, b) = trim_range(&cs, 0, cs.len());
    assert(cs@.subrange(0, cs@.len() as int) =~= cs@);
    if a < b {
        let mut out = String::from_str("\n# Completions for plugin: ");
        out.append(plugin);
        out.append("\n");
        out.append(output);
        Some(out)
    } else {
        None
    }
}

/// The entry of a plugin that lists examples is its entry without them, with
/// the line `    Examples: ` and the examples joined by `; ` added before the
/// closing blank line, whatever its commands are.
pub proof fn law_help_entry_examples_line(
    name: Seq<char>,
    usage: Option<Seq<char>>,
    command_names: Seq<Seq<char>>,
    examples: Seq<Seq<char>>,
)
    requires
        examples.len() > 0,
    ensures
        plugin_help_entry(name, usage, command_names, examples) == plugin_help_entry(
            name,
            usage,
            command_names,
            Seq::empty(),
        ).drop_last() + "    Examples: "@ + join(examples, "; "@) + "\n"@ + "\n"@,
{
    reveal_strlit("\n");
    let e = Seq::<char>::empty();
    let u = match usage {
        Some(u) => "    "@ + u + "\n"@,
        None => e,
    };
    let c = if command_names.len() > 0 {
        "    Commands: "@ + join(command_names, ", "@) + "\n"@
    } else {
        e
    };
    let head = "  "@ + name + "\n"@ + u + c;
    assert(plugin_help_entry(name, usage, command_names, Seq::empty()) =~= head + e + "\n"@);
    assert((head + e + "\n"@).drop_last() =~= head);
    assert(plugin_help_entry(name, usage, command_names, examples) =~= head + ("    Examples: "@
        + join(examples, "; "@) + "\n"@) + "\n"@);
}

/// The entry of a plugin that lists commands is its entry without them, with
/// the line `    Commands: ` and the command names joined by `, ` added before
/// its examples line, if any, and the closing blank line; without commands
/// no `    Commands: ` line is added.
pub proof fn law_help_entry_commands_line(
    name: Seq<char>,
    usage: Option<Seq<char>>,
    command_names: Seq<Seq<char>>,
)
    ensures
        command_names.len() > 0 ==> plugin_help_entry(name, usage, command_names, Seq::empty())
            == plugin_help_entry(name, usage, Seq::empty(), Seq::empty()).drop_last()
            + "    Commands: "@ + join(command_names, ", "@) + "\n"@ + "\n"@,
        plugin_help_entry(name, usage, Seq::empty(), Seq::empty()) == "  "@ + name + "\n"@
            + match usage {
            Some(u) => "    "@ + u + "\n"@,
            None => Seq::empty(),
        } + "\n"@,
{
    reveal_strlit("\n");
    let e = Seq::<char>::empty();
    let u = match usage {
        Some(u) => "    "@ + u + "\n"@,
        None => e,
    };
    let head = "  "@ + name + "\n"@ + u;
    assert(plugin_help_entry(name, usage, Seq::empty(), Seq::empty()) =~= head + e + e + "\n"@);
    assert((head + e + e + "\n"@).drop_last() =~= head);
    assert(plugin_help_entry(name, usage, Seq::empty(), Seq::empty()) =~= head + "\n"@);
    if command_names.len() > 0 {
        assert(plugin_help_entry(name, usage, command_names, Seq::empty()) =~= head + (
        "    Commands: "@ + join(command_names, ", "@) + "\n"@) + e + "\n"@);
    }
}

/// A path of at most 48 bytes is shown whole; a longer one as `...` and a
/// suffix of it, 48 bytes in all.
pub proof fn law_display_path_short(p: Seq<char>)
    requires
        path_display_fits(p),
    ensures
        utf8_len(p) <= 48 ==> display_path(p) == p,
        utf8_len(p) > 48 ==> utf8_len(display_path(p)) == 48 && exists|k: int|
            0 <= k <= p.len() && display_path(p) == "..."@ + p.skip(k),
{
    if utf8_len(p) > 48 {
        let k = byte_suffix_start(p, 45);
        lemma_utf8_len_append("..."@, p.skip(k));
        reveal_strlit("...");
        assert(utf8_len("..."@) == 3) by {
            reveal_with_fuel(utf8_len, 4);
            assert("..."@.drop_last().drop_last().drop_last() =~= Seq::<char>::empty());
        }
    }
}

/// A padded cell starts with its text and is as long as the text or the
/// width, whichever is more.
pub proof fn law_pad_right(s: Seq<char>, width: nat)
    ensures
        starts_with(pad_right(s, width), s),
        pad_right(s, width).len() == if s.len() < width {
            width
        } else {
            s.len()
        },
{
    assert(pad_right(s, width).take(s.len() as int) =~= s);
}

} // verus!
