//! What a plugin's `--help` and `--version` output tell about it.
use vstd::prelude::*;
use crate::text::{
    chars_of, contains, find, find_in, is_ws, last_index_in, last_index_of, leading_word,
    lemma_find_contains, lemma_find_first, lemma_last_index_of, lemma_last_index_of_at, lemma_leading_word, lemma_leading_word_prefix, lemma_lines_step, lemma_replace_absent, lemma_replace_split,
    lemma_replace_keeps_prefix, lemma_trim_ends, lemma_trim_start_suffix, line_ranges, lines,
    occurs_at, occurs_at_index, range_is, range_starts_with, replace, replace_range, starts_with,
    trim, trim_range, trim_start, trim_start_index, utf8_len, utf8_len_exceeds, word_end,
};

verus! {

/// A subcommand that a plugin lists in its help text, with its description.
#[derive(Debug, Clone, PartialEq, Eq)]
pub struct CommandInfo {
    pub name: String,
    pub description: String,
}

impl View for CommandInfo {
    type V = (Seq<char>, Seq<char>);

    open spec fn view(&self) -> (Seq<char>, Seq<char>) {
        (self.name@, self.description@)
    }
}

/// What is known of a plugin from its `--help` and `--version` output.
#[derive(Debug, Clone, PartialEq, Eq)]
pub struct PluginMetadata {
    pub help_text: String,
    pub version: Option<String>,
    pub usage: Option<String>,
    pub commands: Vec<CommandInfo>,
    pub examples: Vec<String>,
    pub supports_completions: bool,
}

/// The name and description pairs of `v`.
pub open spec fn commands_view(v: Seq<CommandInfo>) -> Seq<(Seq<char>, Seq<char>)> {
    v.map_values(|c: CommandInfo| c@)
}

/// A one-element sequence for `Some`, an empty one for `None`.
pub open spec fn opt_seq<A>(o: Option<A>) -> Seq<A> {
    match o {
        Some(a) => seq![a],
        None => Seq::empty(),
    }
}

/// A trimmed line that introduces the usage.
pub open spec fn is_usage_line(t: Seq<char>) -> bool {
    starts_with(t, "Usage:"@) || starts_with(t, "USAGE:"@)
}

/// The first line of `ls`, trimmed, that introduces the usage.
pub open spec fn usage_line(ls: Seq<Seq<char>>) -> Option<Seq<char>>
    decreases ls.len(),
{
    if ls.len() == 0 {
        None
    } else if is_usage_line(trim(ls[0])) {
        Some(trim(ls[0]))
    } else {
        usage_line(ls.drop_first())
    }
}

/// The name under which the plugin `name` is installed: `nilla-<name>`.
pub open spec fn executable_name(name: Seq<char>) -> Seq<char> {
    "nilla-"@ + name
}

/// The name under which the plugin `name` is invoked: `nilla <name>`.
pub open spec fn invocation_name(name: Seq<char>) -> Seq<char> {
    "nilla "@ + name
}

/// `text` with every `nilla-<name>` turned into `nilla <name>`.
pub open spec fn rewrite_invocation(text: Seq<char>, name: Seq<char>) -> Seq<char> {
    replace(text, executable_name(name), invocation_name(name))
}

/// The usage that a help text states, written as `nilla <name>` invokes it.
pub open spec fn help_usage(help: Seq<char>, name: Seq<char>) -> Option<Seq<char>> {
    match usage_line(lines(help)) {
        Some(l) => Some(rewrite_invocation(l, name)),
        None => None,
    }
}

/// The text from `header` up to the first blank line after it, if both occur.
pub open spec fn section(help: Seq<char>, header: Seq<char>) -> Option<Seq<char>> {
    match find(help, header) {
        Some(a) => match find(help.skip(a), "\n\n"@) {
            Some(b) => Some(help.subrange(a, a + b)),
            None => None,
        },
        None => None,
    }
}

/// The command that one line of a `Commands:` section lists, if any.
pub open spec fn command_entry(line: Seq<char>) -> Option<(Seq<char>, Seq<char>)> {
    let t = trim(line);
    if t.len() == 0 || starts_with(t, "Options:"@) {
        None
    } else {
        let name = leading_word(t);
        if name == "help"@ {
            None
        } else {
            Some((name, trim_start(t.skip(name.len() as int))))
        }
    }
}

/// The commands that the lines `ls` list, in order.
pub open spec fn command_entries(ls: Seq<Seq<char>>) -> Seq<(Seq<char>, Seq<char>)>
    decreases ls.len(),
{
    if ls.len() == 0 {
        Seq::empty()
    } else {
        command_entries(ls.drop_last()) + opt_seq(command_entry(ls.last()))
    }
}

/// The lines of `t` after its first one.
pub open spec fn lines_after_first(t: Seq<char>) -> Seq<Seq<char>> {
    if lines(t).len() == 0 {
        Seq::empty()
    } else {
        lines(t).drop_first()
    }
}

/// The commands of a help text: those listed below the `Commands:` line of
/// its `Commands:` section.
pub open spec fn help_commands(help: Seq<char>) -> Seq<(Seq<char>, Seq<char>)> {
    match section(help, "Commands:"@) {
        Some(t) => command_entries(lines_after_first(t)),
        None => Seq::empty(),
    }
}

/// The example that one line of an `Examples:` section gives, if any.
pub open spec fn example_entry(line: Seq<char>) -> Option<Seq<char>> {
    let t = trim(line);
    if t.len() == 0 || starts_with(t, "Options:"@) || starts_with(t, "Commands:"@) {
        None
    } else if starts_with(t, "#"@) || starts_with(t, "$"@) {
        None
    } else if utf8_len(t) > 5 {
        Some(t)
    } else {
        None
    }
}

/// The examples that the lines `ls` give, in order.
pub open spec fn example_entries(ls: Seq<Seq<char>>) -> Seq<Seq<char>>
    decreases ls.len(),
{
    if ls.len() == 0 {
        Seq::empty()
    } else {
        example_entries(ls.drop_last()) + opt_seq(example_entry(ls.last()))
    }
}

/// The examples of a help text: those given below the `Examples:` line of
/// its `Examples:` section.
pub open spec fn help_examples(help: Seq<char>) -> Seq<Seq<char>> {
    match section(help, "Examples:"@) {
        Some(t) => example_entries(lines_after_first(t)),
        None => Seq::empty(),
    }
}

/// A help text that mentions completions.
pub open spec fn help_mentions_completions(help: Seq<char>) -> bool {
    contains(help, "completion"@) || contains(help, "completions"@)
}

/// The lines of `cs` that `spans` delimit.
pub open spec fn spanned(cs: Seq<char>, spans: Seq<(usize, usize)>) -> Seq<Seq<char>> {
    spans.map_values(|p: (usize, usize)| cs.subrange(p.0 as int, p.1 as int))
}

/// The spans lie within `cs`.
pub open spec fn spans_within(cs: Seq<char>, spans: Seq<(usize, usize)>) -> bool {
    forall|i: int|
        #![trigger spans[i]]
        0 <= i < spans.len() ==> spans[i].0 <= spans[i].1 <= cs.len()
}

/// The text of `src` from `header` up to the first blank line after it.
fn section_range(cs: &Vec<char>, header: &Vec<char>) -> (res: Option<(usize, usize)>)
    ensures
        match section(cs@, header@) {
            Some(t) => res matches Some(r) && r.0 <= r.1 <= cs@.len() && cs@.subrange(
                r.0 as int,
                r.1 as int,
            ) == t,
            None => res is None,
        },
{
    let blank = chars_of("\n\n");
    assert(cs@.subrange(0, cs@.len() as int) =~= cs@);
    match find_in(cs, 0, cs.len(), header) {
        Some(a) => {
            assert(cs@.skip(a as int) =~= cs@.subrange(a as int, cs@.len() as int));
            match find_in(cs, a, cs.len(), &blank) {
                Some(e) => Some((a, e)),
                None => None,
            }
        },
        None => None,
    }
}

/// The command that the line `[a, b)` of `cs` lists, if any.
fn command_at(src: &str, cs: &Vec<char>, a: usize, b: usize) -> (res: Option<CommandInfo>)
    requires
        cs@ == src@,
        a <= b <= cs@.len(),
    ensures
        match command_entry(cs@.subrange(a as int, b as int)) {
            Some(e) => res matches Some(c) && c@ == e,
            None => res is None,
        },
{
    let options = chars_of("Options:");
    let help = chars_of("help");
    let (ta, tb) = trim_range(cs, a, b);
    if ta == tb || range_starts_with(cs, ta, tb, &options) {
        return None;
    }
    let we = word_end(cs, ta, tb);
    if range_is(cs, ta, we, &help) {
        return None;
    }
    let ds = trim_start_index(cs, we, tb);
    assert(cs@.subrange(ta as int, tb as int).skip(we - ta) =~= cs@.subrange(
        we as int,
        tb as int,
    ));
    let name = String::from_str(src.substring_char(ta, we));
    let description = String::from_str(src.substring_char(ds, tb));
    Some(CommandInfo { name, description })
}

/// The example that the line `[a, b)` of `cs` gives, if any.
fn example_at(src: &str, cs: &Vec<char>, a: usize, b: usize) -> (res: Option<String>)
    requires
        cs@ == src@,
        a <= b <= cs@.len(),
    ensures
        res.deep_view() == example_entry(cs@.subrange(a as int, b as int)),
{
    let options = chars_of("Options:");
    let commands = chars_of("Commands:");
    let hash = chars_of("#");
    let dollar = chars_of("$");
    let (ta, tb) = trim_range(cs, a, b);
    if ta == tb || range_starts_with(cs, ta, tb, &options) || range_starts_with(
        cs,
        ta,
        tb,
        &commands,
    ) {
        None
    } else if range_starts_with(cs, ta, tb, &hash) || range_starts_with(cs, ta, tb, &dollar) {
        None
    } else if utf8_len_exceeds(cs, ta, tb, 5) {
        Some(String::from_str(src.substring_char(ta, tb)))
    } else {
        None
    }
}

/// The commands that the lines `spans` of `cs`, after the first one, list.
fn commands_in(src: &str, cs: &Vec<char>, spans: &Vec<(usize, usize)>) -> (res: Vec<CommandInfo>)
    requires
        cs@ == src@,
        spans_within(cs@, spans@),
        spans@.len() > 0,
    ensures
        commands_view(res@) == command_entries(spanned(cs@, spans@).drop_first()),
{
    let ghost ls = spanned(cs@, spans@).drop_first();
    let mut out: Vec<CommandInfo> = Vec::new();
    let mut i: usize = 1;
    assert(ls.take(0) =~= Seq::<Seq<char>>::empty());
    assert(commands_view(out@) =~= Seq::<(Seq<char>, Seq<char>)>::empty());
    while i < spans.len()
        invariant
            1 <= i <= spans@.len(),
            cs@ == src@,
            spans_within(cs@, spans@),
            ls == spanned(cs@, spans@).drop_first(),
            commands_view(out@) == command_entries(ls.take(i - 1)),
        decreases spans@.len() - i,
    {
        let (a, b) = spans[i];
        let entry = command_at(src, cs, a, b);
        assert(ls.take(i as int).drop_last() =~= ls.take(i - 1));
        assert(ls.take(i as int).last() == cs@.subrange(a as int, b as int));
        let ghost before = out@;
        match entry {
            Some(c) => {
                out.push(c);
                assert(commands_view(out@) =~= commands_view(before) + opt_seq(
                    command_entry(cs@.subrange(a as int, b as int)),
                ));
            },
            None => {},
        }
        assert(commands_view(out@) =~= command_entries(ls.take(i as int)));
        i = i + 1;
    }
    assert(ls.take(i - 1) =~= ls);
    out
}

/// The examples that the lines `spans` of `cs`, after the first one, give.
fn examples_in(src: &str, cs: &Vec<char>, spans: &Vec<(usize, usize)>) -> (res: Vec<String>)
    requires
        cs@ == src@,
        spans_within(cs@, spans@),
        spans@.len() > 0,
    ensures
        res.deep_view() == example_entries(spanned(cs@, spans@).drop_first()),
{
    let ghost ls = spanned(cs@, spans@).drop_first();
    let mut out: Vec<String> = Vec::new();
    let mut i: usize = 1;
    assert(ls.take(0) =~= Seq::<Seq<char>>::empty());
    assert(out.deep_view() =~= Seq::<Seq<char>>::empty());
    while i < spans.len()
        invariant
            1 <= i <= spans@.len(),
            cs@ == src@,
            spans_within(cs@, spans@),
            ls == spanned(cs@, spans@).drop_first(),
            out.deep_view() == example_entries(ls.take(i - 1)),
        decreases spans@.len() - i,
    {
        let (a, b) = spans[i];
        let entry = example_at(src, cs, a, b);
        assert(ls.take(i as int).drop_last() =~= ls.take(i - 1));
        assert(ls.take(i as int).last() == cs@.subrange(a as int, b as int));
        let ghost before = out.deep_view();
        match entry {
            Some(e) => {
                out.push(e);
                assert(out.deep_view() =~= before + opt_seq(
                    example_entry(cs@.subrange(a as int, b as int)),
                ));
            },
            None => {},
        }
        assert(out.deep_view() =~= example_entries(ls.take(i as int)));
        i = i + 1;
    }
    assert(ls.take(i - 1) =~= ls);
    out
}

/// The range `[lo, hi)` of `src`, with every `nilla-<name>` in it turned into
/// `nilla <name>`.
pub fn rewrite_invocation_range(src: &str, cs: &Vec<char>, lo: usize, hi: usize, name: &str) -> (res:
    String)
    requires
        cs@ == src@,
        lo <= hi <= cs@.len(),
    ensures
        res@ == rewrite_invocation(cs@.subrange(lo as int, hi as int), name@),
{
    let mut invocation = String::from_str("nilla ");
    invocation.append(name);
    let mut pat = chars_of("nilla-");
    let name_chars = chars_of(name);
    let mut k: usize = 0;
    while k < name_chars.len()
        invariant
            k <= name_chars@.len(),
            name_chars@ == name@,
            pat@ == "nilla-"@ + name@.take(k as int),
        decreases name_chars@.len() - k,
    {
        pat.push(name_chars[k]);
        assert(name@.take(k + 1) =~= name@.take(k as int).push(name@[k as int]));
        k = k + 1;
    }
    assert(name@.take(k as int) =~= name@);
    assert(pat@.len() > 0) by {
        reveal_strlit("nilla-");
    }
    replace_range(src, cs, lo, hi, &pat, invocation.as_str())
}

/// `text` with every `nilla-<name>` in it turned into `nilla <name>`, as a
/// plugin's output is shown to the user.
pub fn rewrite_invocation_text(text: &str, name: &str) -> (res: String)
    ensures
        res@ == rewrite_invocation(text@, name@),
{
    let cs = chars_of(text);
    assert(cs@.subrange(0, cs@.len() as int) =~= cs@);
    rewrite_invocation_range(text, &cs, 0, cs.len(), name)
}

fn usage_from_lines(src: &str, cs: &Vec<char>, spans: &Vec<(usize, usize)>, name: &str) -> (res:
    Option<String>)
    requires
        cs@ == src@,
        forall|i: int|
            #![trigger spans@[i]]
            0 <= i < spans@.len() ==> spans@[i].0 <= spans@[i].1 <= cs@.len(),
    ensures
        res.deep_view() == match usage_line(spanned(cs@, spans@)) {
            Some(l) => Some(rewrite_invocation(l, name@)),
            None => None,
        },
{
    let ghost ls = spans@.map_values(|p: (usize, usize)| cs@.subrange(p.0 as int, p.1 as int));
    let low = chars_of("Usage:");
    let up = chars_of("USAGE:");
    let mut i: usize = 0;
    assert(ls.skip(0) =~= ls);
    while i < spans.len()
        invariant
            i <= spans@.len(),
            cs@ == src@,
            ls == spans@.map_values(|p: (usize, usize)| cs@.subrange(p.0 as int, p.1 as int)),
            forall|k: int|
                #![trigger spans@[k]]
                0 <= k < spans@.len() ==> spans@[k].0 <= spans@[k].1 <= cs@.len(),
            usage_line(ls) == usage_line(ls.skip(i as int)),
            low@ == "Usage:"@,
            up@ == "USAGE:"@,
        decreases spans@.len() - i,
    {
        let (a, b) = spans[i];
        let (ta, tb) = trim_range(cs, a, b);
        let ghost t = cs@.subrange(ta as int, tb as int);
        assert(ls.skip(i as int)[0] == ls[i as int]);
        let is_low = occurs_at_index(cs, ta, tb, &low, ta);
        let is_up = occurs_at_index(cs, ta, tb, &up, ta);
        assert(cs@.subrange(ta as int, tb as int).subrange(0, 6) =~= t.take(6));
        if is_low || is_up {
            let r = rewrite_invocation_range(src, cs, ta, tb, name);
            return Some(r);
        }
        assert(ls.skip(i as int).drop_first() =~= ls.skip(i + 1));
        i = i + 1;
    }
    None
}

/// A version string without the program name before it: what follows its
/// last space.
pub open spec fn clean_version_of(v: Seq<char>) -> Seq<char> {
    match last_index_of(v, ' ') {
        Some(k) => v.skip(k + 1),
        None => v,
    }
}

/// The version that a plugin's `--version` output states, if it states one.
pub open spec fn version_from_output(output: Option<Seq<char>>) -> Option<Seq<char>> {
    match output {
        Some(v) => {
            let c = clean_version_of(trim(v));
            if c.len() > 0 {
                Some(c)
            } else {
                None
            }
        },
        None => None,
    }
}

/// The plugin name within an executable's file name: what follows `nilla-`,
/// or `plugin` where the name is unknown or lacks that prefix.
pub open spec fn plugin_name_of_file(file_name: Option<Seq<char>>) -> Seq<char> {
    match file_name {
        Some(f) => if starts_with(f, "nilla-"@) {
            f.skip("nilla-"@.len() as int)
        } else {
            "plugin"@
        },
        None => "plugin"@,
    }
}

/// `version` without the program name before it: what follows its last space.
pub fn clean_version(version: &str) -> (res: String)
    ensures
        res@ == clean_version_of(version@),
{
    let cs = chars_of(version);
    let n = cs.len();
    assert(cs@.subrange(0, n as int) =~= cs@);
    match last_index_in(&cs, 0, n, ' ') {
        Some(k) => {
            assert(cs@.skip(k + 1) =~= cs@.subrange(k + 1, n as int));
            String::from_str(version.substring_char(k + 1, n))
        },
        None => String::from_str(version),
    }
}

/// The version that a plugin's `--version` output states: the output trimmed
/// and cleaned of the program name, if anything is left.
pub fn plugin_version(output: Option<String>) -> (res: Option<String>)
    ensures
        res.deep_view() == version_from_output(output.deep_view()),
{
    match output {
        Some(v) => {
            let s = v.as_str();
            let cs = chars_of(s);
            let (a, b) = trim_range(&cs, 0, cs.len());
            assert(cs@.subrange(0, cs@.len() as int) =~= cs@);
            let c = clean_version(s.substring_char(a, b));
            if c.unicode_len() > 0 {
                Some(c)
            } else {
                None
            }
        },
        None => None,
    }
}

/// The plugin name within an executable's file name: what follows `nilla-`,
/// or `plugin` where the name is unknown or lacks that prefix.
pub fn plugin_name_from_file_name(file_name: Option<&str>) -> (res: String)
    ensures
        res@ == plugin_name_of_file(
            match file_name {
                Some(f) => Some(f@),
                None => None,
            },
        ),
{
    match file_name {
        Some(f) => {
            let cs = chars_of(f);
            let prefix = chars_of("nilla-");
            let n = cs.len();
            assert(cs@.subrange(0, n as int) =~= cs@);
            if occurs_at_index(&cs, 0, n, &prefix, 0) {
                assert(cs@.subrange(0, prefix@.len() as int) =~= cs@.take(prefix@.len() as int));
                assert(cs@.skip(prefix@.len() as int) =~= cs@.subrange(prefix@.len() as int, n as int));
                String::from_str(f.substring_char(prefix.len(), n))
            } else {
                assert(cs@.subrange(0, prefix@.len() as int) =~= cs@.take(prefix@.len() as int));
                String::from_str("plugin")
            }
        },
        None => String::from_str("plugin"),
    }
}

/// The metadata of a plugin from what its `--help` and `--version` runs wrote
/// (`None` where a run failed) and from its executable's file name.
pub fn plugin_metadata_from_output(
    help_output: Option<String>,
    version_output: Option<String>,
    file_name: Option<&str>,
) -> (res: PluginMetadata)
    ensures
        res.help_text@ == match help_output {
            Some(h) => h@,
            None => Seq::<char>::empty(),
        },
        res.version.deep_view() == version_from_output(version_output.deep_view()),
        res.usage.deep_view() == help_usage(
            res.help_text@,
            plugin_name_of_file(
                match file_name {
                    Some(f) => Some(f@),
                    None => None,
                },
            ),
        ),
        commands_view(res.commands@) == help_commands(res.help_text@),
        res.examples.deep_view() == help_examples(res.help_text@),
        res.supports_completions == help_mentions_completions(res.help_text@),
{
    let help_text = match help_output {
        Some(h) => h,
        None => String::new(),
    };
    let version = plugin_version(version_output);
    let plugin_name = plugin_name_from_file_name(file_name);
    let (usage, commands, examples, supports_completions) = parse_plugin_help(
        help_text.as_str(),
        plugin_name.as_str(),
    );
    PluginMetadata { help_text, version, usage, commands, examples, supports_completions }
}

/// A listed command: its name is non-empty, holds no whitespace and is not
/// `help`; its description neither starts nor ends with whitespace.
pub open spec fn well_formed_command(c: (Seq<char>, Seq<char>)) -> bool {
    &&& c.0.len() > 0
    &&& c.0 != "help"@
    &&& forall|j: int| 0 <= j < c.0.len() ==> !is_ws(#[trigger] c.0[j])
    &&& c.1.len() > 0 ==> !is_ws(c.1[0]) && !is_ws(c.1.last())
}

/// A given example: it neither starts nor ends with whitespace, takes more
/// than 5 bytes, and is not a comment or a shell prompt line.
pub open spec fn well_formed_example(e: Seq<char>) -> bool {
    &&& e.len() > 0
    &&& !is_ws(e[0])
    &&& !is_ws(e.last())
    &&& utf8_len(e) > 5
    &&& !starts_with(e, "#"@)
    &&& !starts_with(e, "$"@)
}

proof fn lemma_command_entry_well_formed(line: Seq<char>)
    ensures
        command_entry(line) matches Some(c) ==> well_formed_command(c),
{
    let t = trim(line);
    if command_entry(line) is Some {
        lemma_trim_ends(line);
        lemma_leading_word_prefix(t);
        let name = leading_word(t);
        let rest = t.skip(name.len() as int);
        lemma_trim_start_suffix(rest);
        let d = trim_start(rest);
        let k = choose|k: int| 0 <= k <= rest.len() && d == rest.skip(k);
        if d.len() > 0 {
            assert(d.last() == t.last());
        }
    }
}

proof fn lemma_command_entries_well_formed(ls: Seq<Seq<char>>)
    ensures
        forall|i: int|
            0 <= i < command_entries(ls).len() ==> well_formed_command(
                #[trigger] command_entries(ls)[i],
            ),
    decreases ls.len(),
{
    if ls.len() > 0 {
        lemma_command_entries_well_formed(ls.drop_last());
        lemma_command_entry_well_formed(ls.last());
        let before = command_entries(ls.drop_last());
        assert forall|i: int|
            0 <= i < command_entries(ls).len() implies well_formed_command(
            #[trigger] command_entries(ls)[i],
        ) by {
            if i < before.len() {
                assert(command_entries(ls)[i] == before[i]);
            }
        }
    }
}

proof fn lemma_example_entries_well_formed(ls: Seq<Seq<char>>)
    ensures
        forall|i: int|
            0 <= i < example_entries(ls).len() ==> well_formed_example(
                #[trigger] example_entries(ls)[i],
            ),
    decreases ls.len(),
{
    if ls.len() > 0 {
        lemma_example_entries_well_formed(ls.drop_last());
        lemma_trim_ends(ls.last());
        let before = example_entries(ls.drop_last());
        assert forall|i: int|
            0 <= i < example_entries(ls).len() implies well_formed_example(
            #[trigger] example_entries(ls)[i],
        ) by {
            if i < before.len() {
                assert(example_entries(ls)[i] == before[i]);
            }
        }
    }
}

/// Every command that a help text lists has a non-empty name without
/// whitespace, other than `help`, and a description that neither starts nor
/// ends with whitespace.
pub proof fn law_commands_well_formed(help: Seq<char>)
    ensures
        forall|i: int|
            0 <= i < help_commands(help).len() ==> well_formed_command(
                #[trigger] help_commands(help)[i],
            ),
{
    if let Some(t) = section(help, "Commands:"@) {
        lemma_command_entries_well_formed(lines_after_first(t));
    }
}

/// Every example that a help text gives neither starts nor ends with
/// whitespace, takes more than 5 bytes, and is no comment or prompt line.
pub proof fn law_examples_well_formed(help: Seq<char>)
    ensures
        forall|i: int|
            0 <= i < help_examples(help).len() ==> well_formed_example(
                #[trigger] help_examples(help)[i],
            ),
{
    if let Some(t) = section(help, "Examples:"@) {
        lemma_example_entries_well_formed(lines_after_first(t));
    }
}

/// A plugin supports completions exactly when its help text mentions
/// `completion`.
pub proof fn law_completions_mentioned(help: Seq<char>)
    ensures
        help_mentions_completions(help) == contains(help, "completion"@),
{
    if contains(help, "completions"@) {
        reveal_strlit("completions");
        reveal_strlit("completion");
        let i = choose|i: int| occurs_at(help, "completions"@, i);
        assert(help.subrange(i, i + 10) =~= help.subrange(i, i + 11).take(10));
        assert("completions"@.take(10) =~= "completion"@);
        assert(occurs_at(help, "completion"@, i));
    }
}

proof fn lemma_usage_line(ls: Seq<Seq<char>>)
    ensures
        usage_line(ls) matches Some(l) ==> is_usage_line(l),
        usage_line(ls) is Some <==> exists|i: int| 0 <= i < ls.len() && is_usage_line(
            trim(#[trigger] ls[i]),
        ),
    decreases ls.len(),
{
    if ls.len() > 0 {
        lemma_usage_line(ls.drop_first());
        if !is_usage_line(trim(ls[0])) {
            assert forall|i: int| 1 <= i < ls.len() implies ls[i] == ls.drop_first()[i - 1] by {}
            if exists|i: int| 0 <= i < ls.len() && is_usage_line(trim(#[trigger] ls[i])) {
                let i = choose|i: int| 0 <= i < ls.len() && is_usage_line(trim(#[trigger] ls[i]));
                assert(ls.drop_first()[i - 1] == ls[i]);
            }
        }
    }
}

/// A help text states a usage exactly when one of its lines, trimmed, starts
/// with `Usage:` or `USAGE:`; the usage, rewritten to `nilla <plugin>`, still
/// starts so.
pub proof fn law_usage_kept(help: Seq<char>, name: Seq<char>)
    ensures
        help_usage(help, name) is Some <==> exists|i: int|
            0 <= i < lines(help).len() && is_usage_line(trim(#[trigger] lines(help)[i])),
        help_usage(help, name) matches Some(u) ==> is_usage_line(u),
{
    lemma_usage_line(lines(help));
    if let Some(l) = usage_line(lines(help)) {
        reveal_strlit("nilla-");
        reveal_strlit("Usage:");
        reveal_strlit("USAGE:");
        let p = executable_name(name);
        assert(p[0] == 'n');
        if starts_with(l, "Usage:"@) {
            lemma_replace_keeps_prefix(l, p, invocation_name(name), "Usage:"@);
        } else {
            lemma_replace_keeps_prefix(l, p, invocation_name(name), "USAGE:"@);
        }
    }
}

/// Output that never names `nilla-<plugin>` is shown unchanged.
pub proof fn law_rewrite_without_occurrence(text: Seq<char>, name: Seq<char>)
    requires
        !contains(text, executable_name(name)),
    ensures
        rewrite_invocation(text, name) == text,
{
    reveal_strlit("nilla-");
    lemma_replace_absent(text, executable_name(name), invocation_name(name));
}

proof fn lemma_clean_version_no_space(v: Seq<char>)
    ensures
        forall|j: int| 0 <= j < clean_version_of(v).len() ==> clean_version_of(v)[j] != ' ',
{
    lemma_last_index_of(v, ' ');
}

/// Cleaning a version leaves no space in it, so cleaning it again changes
/// nothing.
pub proof fn law_clean_version_idempotent(v: Seq<char>)
    ensures
        forall|j: int| 0 <= j < clean_version_of(v).len() ==> clean_version_of(v)[j] != ' ',
        clean_version_of(clean_version_of(v)) == clean_version_of(v),
{
    lemma_clean_version_no_space(v);
    lemma_last_index_of(clean_version_of(v), ' ');
}

/// A line of a `Commands:` section whose trimmed text is a word `w` (no
/// whitespace in it, not `help`, the line not starting with `Options:`)
/// followed by nothing or by whitespace and `rest`, lists the command `w`
/// described by `rest` without its leading whitespace. No name other than
/// `help` is left out.
pub proof fn law_command_line_listed(line: Seq<char>, w: Seq<char>, rest: Seq<char>)
    requires
        trim(line) == w + rest,
        w.len() > 0,
        forall|j: int| 0 <= j < w.len() ==> !is_ws(#[trigger] w[j]),
        rest.len() == 0 || is_ws(rest[0]),
        w != "help"@,
        !starts_with(w + rest, "Options:"@),
    ensures
        command_entry(line) == Some((w, trim_start(rest))),
{
    let t = w + rest;
    lemma_leading_word(t, w.len() as int);
    assert(t.take(w.len() as int) =~= w);
    assert(t.skip(w.len() as int) =~= rest);
}

/// A blank line, an `Options:` line, and the line of clap's `help` command
/// list no command.
pub proof fn law_command_line_skipped(line: Seq<char>, rest: Seq<char>)
    requires
        trim(line).len() == 0 || starts_with(trim(line), "Options:"@) || (trim(line) == "help"@
            + rest && (rest.len() == 0 || is_ws(rest[0]))),
    ensures
        command_entry(line) is None,
{
    let t = trim(line);
    if t.len() > 0 && !starts_with(t, "Options:"@) {
        reveal_strlit("help");
        assert forall|j: int| 0 <= j < 4 implies !is_ws(#[trigger] t[j]) by {
            assert(t[j] == "help"@[j]);
        }
        lemma_leading_word(t, 4);
        assert(t.take(4) =~= "help"@);
    }
}

/// The commands of lines one after another are those of the first lines,
/// then those of the others, and a single line lists at most its own command:
/// every line is read on its own, in order.
pub proof fn law_command_entries_concat(ls1: Seq<Seq<char>>, ls2: Seq<Seq<char>>, l: Seq<char>)
    ensures
        command_entries(ls1 + ls2) == command_entries(ls1) + command_entries(ls2),
        command_entries(seq![l]) == match command_entry(l) {
            Some(c) => seq![c],
            None => Seq::<(Seq<char>, Seq<char>)>::empty(),
        },
    decreases ls2.len(),
{
    assert(seq![l].drop_last() =~= Seq::<Seq<char>>::empty());
    assert(command_entries(seq![l].drop_last()) =~= Seq::<(Seq<char>, Seq<char>)>::empty());
    if ls2.len() == 0 {
        assert(ls1 + ls2 =~= ls1);
        assert(command_entries(ls2) =~= Seq::<(Seq<char>, Seq<char>)>::empty());
        assert(command_entries(ls1) + command_entries(ls2) =~= command_entries(ls1));
    } else {
        law_command_entries_concat(ls1, ls2.drop_last(), l);
        assert((ls1 + ls2).drop_last() =~= ls1 + ls2.drop_last());
        assert((ls1 + ls2).last() == ls2.last());
        assert(command_entries(ls1 + ls2) =~= command_entries(ls1) + command_entries(ls2));
    }
}

/// Output that holds line breaks is rewritten line by line, as one text: the
/// rewrite of `a`, a newline and `b` is the rewrite of `a`, the newline and
/// the rewrite of `b` (for a plugin name without a newline), so every
/// `nilla-<plugin>` of a multi-line output becomes `nilla <plugin>`.
pub proof fn law_rewrite_across_lines(a: Seq<char>, b: Seq<char>, name: Seq<char>)
    requires
        forall|j: int| 0 <= j < name.len() ==> name[j] != '\n',
    ensures
        rewrite_invocation(a + "\n"@ + b, name) == rewrite_invocation(a, name) + "\n"@
            + rewrite_invocation(b, name),
{
    reveal_strlit("\n");
    reveal_strlit("nilla-");
    let p = executable_name(name);
    assert forall|j: int| 0 <= j < p.len() implies p[j] != '\n' by {
        if j >= 6 {
            assert(p[j] == name[j - 6]);
        }
    }
    assert("\n"@ =~= seq!['\n']);
    assert(p.len() > 0);
    lemma_replace_split(a, '\n', b, p, invocation_name(name));
}

/// Every `nilla-<plugin>` standing on its own between line breaks becomes
/// `nilla <plugin>`.
pub proof fn law_rewrite_invocation_itself(name: Seq<char>)
    ensures
        rewrite_invocation(executable_name(name), name) == invocation_name(name),
{
    reveal_strlit("nilla-");
    let p = executable_name(name);
    assert(p.take(p.len() as int) =~= p);
    assert(p.len() > 0);
    assert(p.skip(p.len() as int) =~= Seq::<char>::empty());
    assert(replace(Seq::<char>::empty(), p, invocation_name(name)) =~= Seq::<char>::empty());
    assert(replace(p, p, invocation_name(name)) == invocation_name(name) + replace(
        p.skip(p.len() as int),
        p,
        invocation_name(name),
    ));
    assert(invocation_name(name) + Seq::<char>::empty() =~= invocation_name(name));
}

/// An example line is given exactly when its trimmed text is non-empty,
/// takes more than 5 bytes, and starts with none of `Options:`, `Commands:`,
/// `#` and `$`; the example is that trimmed text.
pub proof fn law_example_line(line: Seq<char>)
    ensures
        ({
            let t = trim(line);
            let kept = t.len() > 0 && utf8_len(t) > 5 && !starts_with(t, "Options:"@)
                && !starts_with(t, "Commands:"@) && !starts_with(t, "#"@) && !starts_with(
                t,
                "$"@,
            );
            &&& kept ==> example_entry(line) == Some(t)
            &&& !kept ==> example_entry(line) is None
        }),
{
}

/// The examples of lines one after another are those of the first lines,
/// then those of the others, and a single line gives at most its own example.
pub proof fn law_example_entries_concat(ls1: Seq<Seq<char>>, ls2: Seq<Seq<char>>, l: Seq<char>)
    ensures
        example_entries(ls1 + ls2) == example_entries(ls1) + example_entries(ls2),
        example_entries(seq![l]) == match example_entry(l) {
            Some(e) => seq![e],
            None => Seq::<Seq<char>>::empty(),
        },
    decreases ls2.len(),
{
    assert(seq![l].drop_last() =~= Seq::<Seq<char>>::empty());
    assert(example_entries(seq![l].drop_last()) =~= Seq::<Seq<char>>::empty());
    if ls2.len() == 0 {
        assert(ls1 + ls2 =~= ls1);
        assert(example_entries(ls2) =~= Seq::<Seq<char>>::empty());
        assert(example_entries(ls1) + example_entries(ls2) =~= example_entries(ls1));
    } else {
        law_example_entries_concat(ls1, ls2.drop_last(), l);
        assert((ls1 + ls2).drop_last() =~= ls1 + ls2.drop_last());
        assert((ls1 + ls2).last() == ls2.last());
        assert(example_entries(ls1 + ls2) =~= example_entries(ls1) + example_entries(ls2));
    }
}

/// The section under `header` runs from the first `header` to the first blank
/// line (`\n\n`) after it.
pub proof fn law_section_span(help: Seq<char>, header: Seq<char>, a: int, b: int)
    requires
        occurs_at(help, header, a),
        forall|j: int| 0 <= j < a ==> !occurs_at(help, header, j),
        0 <= b,
        occurs_at(help, "\n\n"@, a + b),
        forall|j: int| a <= j < a + b ==> !occurs_at(help, "\n\n"@, j),
    ensures
        section(help, header) == Some(help.subrange(a, a + b)),
{
    lemma_find_first(help, header, a);
    let rest = help.skip(a);
    assert forall|j: int| 0 <= j <= b implies occurs_at(rest, "\n\n"@, j) == occurs_at(
        help,
        "\n\n"@,
        a + j,
    ) by {
        if j + "\n\n"@.len() <= rest.len() {
            assert(rest.subrange(j, j + "\n\n"@.len()) =~= help.subrange(
                a + j,
                a + j + "\n\n"@.len(),
            ));
        }
    }
    lemma_find_first(rest, "\n\n"@, b);
}

/// A help text without `header` has no such section.
pub proof fn law_section_absent(help: Seq<char>, header: Seq<char>)
    requires
        !contains(help, header),
    ensures
        section(help, header) is None,
{
    lemma_find_contains(help, header);
}

/// The usage is the first line whose trimmed text starts with `Usage:` or
/// `USAGE:`, trimmed, with `nilla-<plugin>` rewritten.
pub proof fn law_usage_first_line(help: Seq<char>, name: Seq<char>, i: int)
    requires
        0 <= i < lines(help).len(),
        is_usage_line(trim(lines(help)[i])),
        forall|j: int| 0 <= j < i ==> !is_usage_line(trim(#[trigger] lines(help)[j])),
    ensures
        help_usage(help, name) == Some(rewrite_invocation(trim(lines(help)[i]), name)),
{
    lemma_usage_line_first(lines(help), i);
}

proof fn lemma_usage_line_first(ls: Seq<Seq<char>>, i: int)
    requires
        0 <= i < ls.len(),
        is_usage_line(trim(ls[i])),
        forall|j: int| 0 <= j < i ==> !is_usage_line(trim(#[trigger] ls[j])),
    ensures
        usage_line(ls) == Some(trim(ls[i])),
    decreases i,
{
    if i > 0 {
        assert(!is_usage_line(trim(ls[0])));
        assert forall|j: int| 0 <= j < i - 1 implies !is_usage_line(
            trim(#[trigger] ls.drop_first()[j]),
        ) by {
            assert(ls.drop_first()[j] == ls[j + 1]);
        }
        lemma_usage_line_first(ls.drop_first(), i - 1);
    }
}

/// The version is the last word of the trimmed `--version` output: what
/// follows its last space, or all of it without a space.
pub proof fn law_version_last_word(output: Seq<char>, pre: Seq<char>, w: Seq<char>)
    requires
        trim(output) == pre + w,
        w.len() > 0,
        forall|j: int| 0 <= j < w.len() ==> w[j] != ' ',
        pre.len() == 0 || pre.last() == ' ',
    ensures
        version_from_output(Some(output)) == Some(w),
{
    let t = pre + w;
    if pre.len() == 0 {
        assert(t =~= w);
        lemma_last_index_of(t, ' ');
    } else {
        assert forall|j: int| pre.len() - 1 < j < t.len() implies t[j] != ' ' by {
            assert(t[j] == w[j - pre.len()]);
        }
        lemma_last_index_of_at(t, ' ', pre.len() - 1);
        assert(t.skip(pre.len() as int) =~= w);
    }
}

proof fn lemma_lines_below_header(header: Seq<char>, x: Seq<char>, body: Seq<char>)
    requires
        forall|j: int| 0 <= j < header.len() ==> header[j] != '\n',
        forall|j: int| 0 <= j < x.len() ==> x[j] != '\n',
    ensures
        lines_after_first(header + x + "\n"@ + body) == lines(body),
{
    reveal_strlit("\n");
    let t = header + x + "\n"@ + body;
    let k: int = (header.len() + x.len()) as int;
    assert(t[k] == '\n');
    assert forall|j: int| 0 <= j < k implies t[j] != '\n' by {
        if j < header.len() {
            assert(t[j] == header[j]);
        } else {
            assert(t[j] == x[j - header.len()]);
        }
    }
    lemma_lines_step(t, k);
    assert(t.skip(k + 1) =~= body);
}

/// The commands of a help text are those that the lines below the
/// `Commands:` line of its section list.
pub proof fn law_commands_below_header(help: Seq<char>, x: Seq<char>, body: Seq<char>)
    requires
        section(help, "Commands:"@) == Some("Commands:"@ + x + "\n"@ + body),
        forall|j: int| 0 <= j < x.len() ==> x[j] != '\n',
    ensures
        help_commands(help) == command_entries(lines(body)),
{
    reveal_strlit("Commands:");
    lemma_lines_below_header("Commands:"@, x, body);
}

/// The examples of a help text are those that the lines below the
/// `Examples:` line of its section give.
pub proof fn law_examples_below_header(help: Seq<char>, x: Seq<char>, body: Seq<char>)
    requires
        section(help, "Examples:"@) == Some("Examples:"@ + x + "\n"@ + body),
        forall|j: int| 0 <= j < x.len() ==> x[j] != '\n',
    ensures
        help_examples(help) == example_entries(lines(body)),
{
    reveal_strlit("Examples:");
    lemma_lines_below_header("Examples:"@, x, body);
}

/// A stated version is non-empty and holds no space.
pub proof fn law_version_well_formed(output: Option<Seq<char>>)
    ensures
        version_from_output(output) matches Some(v) ==> v.len() > 0 && forall|j: int|
            0 <= j < v.len() ==> v[j] != ' ',
{
    if let Some(o) = output {
        lemma_clean_version_no_space(trim(o));
    }
}

/// The lines of the range `[lo, hi)` of `cs`, as spans.
fn line_spans(cs: &Vec<char>, lo: usize, hi: usize) -> (res: Vec<(usize, usize)>)
    requires
        lo <= hi <= cs@.len(),
    ensures
        spans_within(cs@, res@),
        spanned(cs@, res@) == lines(cs@.subrange(lo as int, hi as int)),
{
    let spans = line_ranges(cs, lo, hi);
    assert(spanned(cs@, spans@) =~= lines(cs@.subrange(lo as int, hi as int)));
    spans
}

/// What a plugin's help text says of it: its usage, written as `nilla <plugin>`
/// invokes it; the commands that its `Commands:` section lists, `help` left
/// out; the examples that its `Examples:` section gives; and whether it
/// mentions completions.
pub fn parse_plugin_help(help_text: &str, plugin_name: &str) -> (res: (
    Option<String>,
    Vec<CommandInfo>,
    Vec<String>,
    bool,
))
    ensures
        res.0.deep_view() == help_usage(help_text@, plugin_name@),
        commands_view(res.1@) == help_commands(help_text@),
        res.2.deep_view() == help_examples(help_text@),
        res.3 == help_mentions_completions(help_text@),
{
    let cs = chars_of(help_text);
    let n = cs.len();
    assert(cs@.subrange(0, n as int) =~= cs@);
    let all = line_spans(&cs, 0, n);
    let usage = usage_from_lines(help_text, &cs, &all, plugin_name);

    let commands_header = chars_of("Commands:");
    let commands = match section_range(&cs, &commands_header) {
        Some((a, e)) => {
            let spans = line_spans(&cs, a, e);
            if spans.len() == 0 {
                Vec::new()
            } else {
                commands_in(help_text, &cs, &spans)
            }
        },
        None => Vec::new(),
    };
    assert(commands_view(commands@) =~= help_commands(help_text@));

    let examples_header = chars_of("Examples:");
    let examples = match section_range(&cs, &examples_header) {
        Some((a, e)) => {
            let spans = line_spans(&cs, a, e);
            if spans.len() == 0 {
                Vec::new()
            } else {
                examples_in(help_text, &cs, &spans)
            }
        },
        None => Vec::new(),
    };
    assert(examples.deep_view() =~= help_examples(help_text@));

    let completion = chars_of("completion");
    let completions = chars_of("completions");
    let mentions = find_in(&cs, 0, n, &completion).is_some() || find_in(
        &cs,
        0,
        n,
        &completions,
    ).is_some();
    proof {
        lemma_find_contains(cs@, "completion"@);
        lemma_find_contains(cs@, "completions"@);
    }
    (usage, commands, examples, mentions)
}

} // verus!
