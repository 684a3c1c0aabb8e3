//! Which plugins are installed: the `nilla-*` executables on the search path,
//! one per name, ordered by name.
use std::path::PathBuf;
use vstd::prelude::*;
use crate::plugin_metadata::{executable_name, plugin_name_of_file};
use crate::text::{chars_of, range_is, range_starts_with, split, split_on, starts_with};

verus! {

/// A plugin's path is carried through the library as it was found.
#[verifier::external_type_specification]
#[verifier::external_body]
pub struct ExPathBuf(PathBuf);

/// A discovered plugin: its name and the path of its executable.
#[derive(Debug)]
pub struct PluginInfo {
    pub name: String,
    pub path: PathBuf,
}

/// `a` comes before `b` in lexicographic order of their characters (the
/// order of their UTF-8 bytes, in which `String`s compare).
pub open spec fn name_lt(a: Seq<char>, b: Seq<char>) -> bool
    decreases a.len(),
{
    if b.len() == 0 {
        false
    } else if a.len() == 0 {
        true
    } else if a[0] < b[0] {
        true
    } else if a[0] == b[0] {
        name_lt(a.drop_first(), b.drop_first())
    } else {
        false
    }
}

/// The plugins of `s` are ordered by name, and no two share a name.
pub open spec fn strictly_sorted_by_name(s: Seq<PluginInfo>) -> bool {
    forall|i: int, j: int| 0 <= i < j < s.len() ==> name_lt(#[trigger] s[i].name@, #[trigger] s[j].name@)
}

/// Some plugin of `s` has the name `n`.
pub open spec fn has_name(s: Seq<PluginInfo>, n: Seq<char>) -> bool {
    exists|i: int| 0 <= i < s.len() && #[trigger] s[i].name@ == n
}

/// The plugins of `s` whose name no earlier plugin of `s` has, in order.
pub open spec fn first_of_each_name(s: Seq<PluginInfo>) -> Seq<PluginInfo>
    decreases s.len(),
{
    if s.len() == 0 {
        Seq::empty()
    } else {
        let d = first_of_each_name(s.drop_last());
        if has_name(s.drop_last(), s.last().name@) {
            d
        } else {
            d.push(s.last())
        }
    }
}

/// The plugin name that an executable's file name gives: what follows
/// `nilla-`, for a file other than `nilla` itself.
pub open spec fn plugin_name_of_entry(file_name: Seq<char>) -> Option<Seq<char>> {
    if starts_with(file_name, "nilla-"@) && file_name != "nilla"@ {
        Some(file_name.skip("nilla-"@.len() as int))
    } else {
        None
    }
}

/// The name order is irreflexive.
pub proof fn lemma_name_lt_irreflexive(a: Seq<char>)
    ensures
        !name_lt(a, a),
    decreases a.len(),
{
    if a.len() > 0 {
        lemma_name_lt_irreflexive(a.drop_first());
    }
}

/// The name order is transitive.
pub proof fn lemma_name_lt_transitive(a: Seq<char>, b: Seq<char>, c: Seq<char>)
    requires
        name_lt(a, b),
        name_lt(b, c),
    ensures
        name_lt(a, c),
    decreases a.len(),
{
    if a.len() > 0 && b.len() > 0 && c.len() > 0 && a[0] == b[0] && b[0] == c[0] {
        lemma_name_lt_transitive(a.drop_first(), b.drop_first(), c.drop_first());
    }
}

/// Of two different names, one comes before the other.
pub proof fn lemma_name_lt_total(a: Seq<char>, b: Seq<char>)
    ensures
        a == b || name_lt(a, b) || name_lt(b, a),
    decreases a.len(),
{
    if a.len() > 0 && b.len() > 0 {
        if a[0] == b[0] {
            lemma_name_lt_total(a.drop_first(), b.drop_first());
            if a.drop_first() == b.drop_first() {
                assert(a =~= seq![a[0]] + a.drop_first());
                assert(b =~= seq![b[0]] + b.drop_first());
            }
        }
    } else if a.len() == 0 && b.len() == 0 {
        assert(a =~= b);
    }
}

/// Whether `a` comes before `b` in name order.
fn name_less(a: &Vec<char>, b: &Vec<char>) -> (res: bool)
    ensures
        res == name_lt(a@, b@),
{
    let mut i: usize = 0;
    assert(a@.skip(0) =~= a@);
    assert(b@.skip(0) =~= b@);
    while i < a.len() && i < b.len() && a[i] == b[i]
        invariant
            i <= a@.len(),
            i <= b@.len(),
            name_lt(a@, b@) == name_lt(a@.skip(i as int), b@.skip(i as int)),
        decreases a@.len() - i,
    {
        assert(a@.skip(i as int).drop_first() =~= a@.skip(i + 1));
        assert(b@.skip(i as int).drop_first() =~= b@.skip(i + 1));
        i = i + 1;
    }
    if i == b.len() {
        false
    } else if i == a.len() {
        true
    } else {
        a[i] < b[i]
    }
}

/// Keeping the first plugin of each name keeps every name found.
pub proof fn law_every_name_kept(s: Seq<PluginInfo>, n: Seq<char>)
    ensures
        has_name(first_of_each_name(s), n) <==> has_name(s, n),
    decreases s.len(),
{
    if s.len() > 0 {
        let p = s.drop_last();
        law_every_name_kept(p, n);
        let d = first_of_each_name(p);
        if has_name(p, n) {
            let i = choose|i: int| 0 <= i < p.len() && #[trigger] p[i].name@ == n;
            assert(s[i].name@ == n);
        }
        if has_name(s, n) && !has_name(p, n) {
            let i = choose|i: int| 0 <= i < s.len() && #[trigger] s[i].name@ == n;
            if i < p.len() {
                assert(p[i].name@ == n);
            }
            assert(i == s.len() - 1);
            if !has_name(p, s.last().name@) {
                assert(first_of_each_name(s)[d.len() as int].name@ == n);
            } else {
            }
        }
        if has_name(first_of_each_name(s), n) && !has_name(d, n) {
            let i = choose|i: int|
                0 <= i < first_of_each_name(s).len() && #[trigger] first_of_each_name(s)[i].name@
                    == n;
            if i < d.len() {
                assert(d[i].name@ == n);
            }
            assert(s[s.len() - 1].name@ == n);
        }
        if has_name(d, n) {
            let i = choose|i: int| 0 <= i < d.len() && #[trigger] d[i].name@ == n;
            assert(first_of_each_name(s)[i].name@ == n);
        }
    }
}

/// The plugin kept for each name is the first one found of that name.
pub proof fn law_first_found_kept(s: Seq<PluginInfo>, i: int)
    requires
        0 <= i < first_of_each_name(s).len(),
    ensures
        exists|m: int|
            0 <= m < s.len() && s[m] == first_of_each_name(s)[i] && forall|l: int|
                0 <= l < m ==> #[trigger] s[l].name@ != s[m].name@,
    decreases s.len(),
{
    let p = s.drop_last();
    let d = first_of_each_name(p);
    if i < d.len() {
        law_first_found_kept(p, i);
        let m = choose|m: int|
            0 <= m < p.len() && p[m] == d[i] && forall|l: int|
                0 <= l < m ==> #[trigger] p[l].name@ != p[m].name@;
        assert(s[m] == p[m]);
        assert forall|l: int| 0 <= l < m implies #[trigger] s[l].name@ != s[m].name@ by {
            assert(s[l] == p[l]);
        }
    } else {
        let m = s.len() - 1;
        assert forall|l: int| 0 <= l < m implies #[trigger] s[l].name@ != s[m].name@ by {
            assert(s[l] == p[l]);
        }
    }
}

/// The executable `nilla-<n>` is the plugin `n`, whatever `n` is: the plugin
/// name is everything after the prefix.
pub proof fn law_entry_name_round_trip(n: Seq<char>)
    ensures
        plugin_name_of_entry(executable_name(n)) == Some(n),
        plugin_name_of_file(Some(executable_name(n))) == n,
{
    reveal_strlit("nilla-");
    reveal_strlit("nilla");
    let f = executable_name(n);
    assert(f.take(6) =~= "nilla-"@);
    assert(f.skip(6) =~= n);
    assert(f != "nilla"@) by {
        assert(f.len() != "nilla"@.len());
    }
}

/// A file name without the `nilla-` prefix names no plugin.
pub proof fn law_entry_without_prefix(f: Seq<char>)
    requires
        !starts_with(f, "nilla-"@),
    ensures
        plugin_name_of_entry(f) is None,
{
}

/// The plugins of `candidates`, found in that order, one per name (the first
/// found of each name stays), ordered by name.
pub fn collect_plugins(candidates: Vec<PluginInfo>) -> (res: Vec<PluginInfo>)
    ensures
        strictly_sorted_by_name(res@),
        forall|p: PluginInfo| res@.contains(p) <==> first_of_each_name(candidates@).contains(p),
{
    let ghost cands = candidates@;
    let mut out: Vec<PluginInfo> = Vec::new();
    let mut keys: Vec<Vec<char>> = Vec::new();
    let total = candidates.len();
    let mut rest = candidates;
    let mut done: usize = 0;
    assert(cands.take(0) =~= Seq::<PluginInfo>::empty());
    while rest.len() > 0
        invariant
            done + rest@.len() == cands.len(),
            total == cands.len(),
            rest@ == cands.skip(done as int),
            out@.len() == keys@.len(),
            forall|i: int| 0 <= i < keys@.len() ==> #[trigger] keys@[i]@ == out@[i].name@,
            strictly_sorted_by_name(out@),
            forall|p: PluginInfo|
                out@.contains(p) <==> first_of_each_name(cands.take(done as int)).contains(p),
        decreases rest@.len(),
    {
        let c = rest.remove(0);
        assert(c == cands[done as int]);
        assert(cands.take(done + 1).drop_last() =~= cands.take(done as int));
        assert(cands.take(done + 1).last() == c);
        let k = chars_of(c.name.as_str());
        let mut j: usize = 0;
        while j < keys.len() && name_less(&keys[j], &k)
            invariant
                j <= keys@.len(),
                forall|i: int| 0 <= i < j ==> name_lt(#[trigger] keys@[i]@, k@),
            decreases keys@.len() - j,
        {
            j = j + 1;
        }
        let ghost prefix = cands.take(done as int);
        let ghost fo = first_of_each_name(prefix);
        proof {
            law_every_name_kept(prefix, k@);
        }
        if j < keys.len() && !name_less(&k, &keys[j]) {
            proof {
                lemma_name_lt_total(k@, keys@[j as int]@);
                assert(out@[j as int].name@ == k@);
                assert(out@.contains(out@[j as int]));
                assert(fo.contains(out@[j as int]));
                let m = choose|m: int| 0 <= m < fo.len() && fo[m] == out@[j as int];
                assert(fo[m].name@ == k@);
                assert(has_name(prefix, k@));
                assert(first_of_each_name(cands.take(done + 1)) == fo);
            }
        } else {
            proof {
                if has_name(prefix, k@) {
                    let m = choose|m: int| 0 <= m < fo.len() && #[trigger] fo[m].name@ == k@;
                    assert(fo.contains(fo[m]));
                    assert(out@.contains(fo[m]));
                    let i = choose|i: int| 0 <= i < out@.len() && out@[i] == fo[m];
                    assert(keys@[i]@ == k@);
                    if i < j {
                        lemma_name_lt_irreflexive(k@);
                    } else {
                        lemma_name_lt_total(k@, keys@[j as int]@);
                        if i > j {
                            lemma_name_lt_transitive(k@, keys@[j as int]@, keys@[i]@);
                        }
                        lemma_name_lt_irreflexive(k@);
                    }
                }
                assert(first_of_each_name(cands.take(done + 1)) == fo.push(c));
            }
            let ghost old_out = out@;
            let ghost old_keys = keys@;
            out.insert(j, c);
            keys.insert(j, k);
            proof {
                assert(out@ == old_out.insert(j as int, c));
                assert forall|a: int, b: int| 0 <= a < b < out@.len() implies name_lt(
                    #[trigger] out@[a].name@,
                    #[trigger] out@[b].name@,
                ) by {
                    if b < j {
                        assert(out@[a] == old_out[a]);
                        assert(out@[b] == old_out[b]);
                    } else if b == j {
                        assert(out@[a] == old_out[a]);
                        assert(old_keys[a]@ == old_out[a].name@);
                        assert(name_lt(old_keys[a]@, k@));
                    } else if a < j {
                        assert(out@[a] == old_out[a]);
                        assert(out@[b] == old_out[b - 1]);
                    } else if a == j {
                        assert(out@[b] == old_out[b - 1]);
                        assert(old_keys[j as int]@ == old_out[j as int].name@);
                        assert(name_lt(k@, old_out[j as int].name@));
                        if b - 1 > j {
                            lemma_name_lt_transitive(
                                k@,
                                old_out[j as int].name@,
                                old_out[b - 1].name@,
                            );
                        }
                    } else {
                        assert(out@[a] == old_out[a - 1]);
                        assert(out@[b] == old_out[b - 1]);
                    }
                }
                assert forall|p: PluginInfo| out@.contains(p) <==> fo.push(c).contains(p) by {
                    if out@.contains(p) {
                        let i = choose|i: int| 0 <= i < out@.len() && out@[i] == p;
                        if i != j {
                            if i < j {
                                assert(old_out[i] == p);
                            } else {
                                assert(old_out[i - 1] == p);
                            }
                            assert(old_out.contains(p));
                            assert(fo.contains(p));
                            let m = choose|m: int| 0 <= m < fo.len() && fo[m] == p;
                            assert(fo.push(c)[m] == p);
                        } else {
                            assert(fo.push(c)[fo.len() as int] == p);
                        }
                    }
                    if fo.push(c).contains(p) {
                        let m = choose|m: int| 0 <= m < fo.len() + 1 && fo.push(c)[m] == p;
                        if m < fo.len() {
                            assert(fo[m] == p);
                            assert(fo.contains(p));
                            assert(old_out.contains(p));
                            let i = choose|i: int| 0 <= i < old_out.len() && old_out[i] == p;
                            if i < j {
                                assert(out@[i] == p);
                            } else {
                                assert(out@[i + 1] == p);
                            }
                        } else {
                            assert(out@[j as int] == p);
                        }
                    }
                }
                assert forall|i: int| 0 <= i < keys@.len() implies #[trigger] keys@[i]@
                    == out@[i].name@ by {
                    if i < j {
                        assert(keys@[i] == old_keys[i]);
                        assert(out@[i] == old_out[i]);
                    } else if i > j {
                        assert(keys@[i] == old_keys[i - 1]);
                        assert(out@[i] == old_out[i - 1]);
                    }
                }
            }
        }
        done = done + 1;
    }
    assert(cands.take(done as int) =~= cands);
    out
}

/// The directories of a search-path value, split at `separator` (`:` on
/// Unix, `;` on Windows), empty entries included.
pub fn split_path_list(path_var: &str, separator: char) -> (res: Vec<String>)
    ensures
        res.deep_view() == split(path_var@, separator),
{
    split_on(path_var, separator)
}

/// The plugin name that an executable's file name gives: what follows
/// `nilla-`, for a file other than `nilla` itself.
pub fn plugin_name_from_entry(file_name: &str) -> (res: Option<String>)
    ensures
        res.deep_view() == plugin_name_of_entry(file_name@),
{
    let cs = chars_of(file_name);
    let n = cs.len();
    let prefix = chars_of("nilla-");
    let bare = chars_of("nilla");
    assert(cs@.subrange(0, n as int) =~= cs@);
    if range_starts_with(&cs, 0, n, &prefix) && !range_is(&cs, 0, n, &bare) {
        assert(cs@.skip(prefix@.len() as int) =~= cs@.subrange(prefix@.len() as int, n as int));
        Some(String::from_str(file_name.substring_char(prefix.len(), n)))
    } else {
        None
    }
}

/// Whether a file with the Unix permission bits `mode` may be executed by
/// someone: its owner, its group or others.
pub fn is_executable_mode(mode: u32) -> (res: bool)
    ensures
        res == (mode & 0o111 != 0),
{
    mode & 0o111 != 0
}

/// The file name of the plugin `name`'s executable: `nilla-<name>`.
pub fn plugin_executable_name(name: &str) -> (res: String)
    ensures
        res@ == executable_name(name@),
{
    let mut s = String::from_str("nilla-");
    s.append(name);
    s
}

} // verus!
