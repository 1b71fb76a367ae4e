//! What koboterm keeps on disk, as text: the machines file (one entry per
//! line, tab separated: name, address, command) and the settings file
//! (`key=value` lines). The application reads and writes the files; this
//! module turns their text into values and back.

use vstd::prelude::*;
use crate::pair::push_str;
use crate::parse::{
    all_digits, char_views, digit_value, digits_value, first_at, lemma_first_at, lemma_first_at_is, line_body,
    lines_chars, lines_of, parse_int, parse_int_chars, split_chars, split_on, split_once, split_once_chars,
};
use crate::text::{chars_to_string, decimal, is_white, push_decimal, str_chars, string_push, trim, trim_chars, trim_end, trim_start};
use crate::ui::home::{size_name, HostEntry, TextSize};

verus! {

/// A machine entry as plain values: name, address, command.
pub type EntryView = (Seq<char>, Seq<char>, Option<Seq<char>>);

impl View for HostEntry {
    type V = EntryView;

    open spec fn view(&self) -> EntryView {
        (self.name@, self.spec@, match self.command {
            Some(c) => Some(c@),
            None => None,
        })
    }
}

/// The entries of a list, as plain values.
pub open spec fn entries(v: Seq<HostEntry>) -> Seq<EntryView> {
    Seq::new(v.len(), |i: int| v[i]@)
}

/// A line that holds an entry: not blank, not a `#` comment.
pub open spec fn entry_line(l: Seq<char>) -> bool {
    trim(l).len() > 0 && !(l.len() > 0 && l[0] == '#')
}

/// The entry an entry line holds: trimmed name and address before and after
/// the first tab, and the trimmed text after the second tab as the command
/// when it is not empty. A line without a tab holds none.
pub open spec fn line_entry(l: Seq<char>) -> Option<EntryView> {
    let parts = split_on(l, '\t');
    if parts.len() < 2 {
        None
    } else {
        let cmd = if parts.len() >= 3 && trim(parts[2]).len() > 0 { Some(trim(parts[2])) } else { None };
        Some((trim(parts[0]), trim(parts[1]), cmd))
    }
}

/// The entries held by `lines`, in order.
pub open spec fn entries_in(lines: Seq<Seq<char>>) -> Seq<EntryView>
    decreases lines.len(),
{
    if lines.len() == 0 {
        seq![]
    } else {
        let rest = entries_in(lines.drop_first());
        let l = lines[0];
        if entry_line(l) {
            match line_entry(l) {
                Some(e) => seq![e] + rest,
                None => rest,
            }
        } else {
            rest
        }
    }
}

/// `s` with every tab turned into a space.
pub open spec fn untab(s: Seq<char>) -> Seq<char> {
    Seq::new(s.len(), |i: int| if s[i] == '\t' { ' ' } else { s[i] })
}

/// The line written for an entry.
pub open spec fn entry_text(e: EntryView) -> Seq<char> {
    untab(e.0) + seq!['\t'] + untab(e.1) + seq!['\t'] + (match e.2 {
        Some(c) => c,
        None => seq![],
    }) + seq!['\n']
}

/// The comment line the machines file starts with.
pub open spec fn hosts_header() -> Seq<char> {
    "# koboterm machines: name<TAB>user@host[:port]<TAB>command\n"@
}

/// The lines written for the first `k` entries.
pub open spec fn entries_text(es: Seq<EntryView>, k: int) -> Seq<char>
    decreases k,
{
    if k <= 0 {
        seq![]
    } else {
        entries_text(es, k - 1) + entry_text(es[k - 1])
    }
}

/// The whole machines file for `es`.
pub open spec fn hosts_file(es: Seq<EntryView>) -> Seq<char> {
    hosts_header() + entries_text(es, es.len() as int)
}

impl HostEntry {
    /// The machines in a machines file's text.
    pub fn parse_list(text: &str) -> (r: Vec<HostEntry>)
        ensures
            entries(r@) == entries_in(lines_of(text@)),
    {
        let tv = str_chars(text);
        let ls = lines_chars(tv.as_slice());
        let ghost lv = char_views(ls@);
        let mut out: Vec<HostEntry> = Vec::new();
        let mut i: usize = 0;
        assert(lv.skip(0) =~= lv);
        assert(entries(out@) + entries_in(lv) =~= entries_in(lv));
        while i < ls.len()
            invariant
                i <= ls@.len(),
                lv == char_views(ls@),
                lv == lines_of(text@),
                entries(out@) + entries_in(lv.skip(i as int)) == entries_in(lv),
            decreases ls@.len() - i,
        {
            let ghost rest = lv.skip(i as int);
            let ghost before = entries(out@);
            assert(rest[0] == ls@[i as int]@);
            assert(rest.drop_first() =~= lv.skip(i + 1));
            let line = &ls[i];
            let t = trim_chars(line.as_slice());
            let comment = line.len() > 0 && line[0] == '#';
            if t.len() > 0 && !comment {
                let parts = split_chars(line.as_slice(), '\t');
                if parts.len() >= 2 {
                    assert(char_views(parts@)[0] == parts@[0]@);
                    assert(char_views(parts@)[1] == parts@[1]@);
                    let name = chars_to_string(trim_chars(parts[0].as_slice()).as_slice());
                    let spec = chars_to_string(trim_chars(parts[1].as_slice()).as_slice());
                    let command = if parts.len() >= 3 {
                        assert(char_views(parts@)[2] == parts@[2]@);
                        let c = trim_chars(parts[2].as_slice());
                        if c.len() > 0 { Some(chars_to_string(c.as_slice())) } else { None }
                    } else {
                        None
                    };
                    let e = HostEntry { name, spec, command };
                    out.push(e);
                    assert(entries(out@) =~= before + seq![e@]);
                }
            }
            assert(entries(out@) + entries_in(lv.skip(i + 1)) =~= before + entries_in(rest));
            i = i + 1;
        }
        assert(lv.skip(i as int) =~= Seq::<Seq<char>>::empty());
        assert(entries(out@) + Seq::<EntryView>::empty() =~= entries(out@));
        out
    }

    /// The text of a machines file holding `hosts`.
    pub fn list_text(hosts: &[HostEntry]) -> (s: String)
        ensures
            s@ == hosts_file(entries(hosts@)),
    {
        let mut s = String::new();
        push_str(&mut s, "# koboterm machines: name<TAB>user@host[:port]<TAB>command\n");
        let ghost es = entries(hosts@);
        let mut i: usize = 0;
        while i < hosts.len()
            invariant
                i <= hosts@.len(),
                es == entries(hosts@),
                s@ == hosts_header() + entries_text(es, i as int),
            decreases hosts@.len() - i,
        {
            let h = &hosts[i];
            assert(es[i as int] == h@);
            let ghost before = s@;
            push_untabbed(&mut s, h.name.as_str());
            string_push(&mut s, '\t');
            push_untabbed(&mut s, h.spec.as_str());
            string_push(&mut s, '\t');
            match &h.command {
                Some(c) => push_str(&mut s, c.as_str()),
                None => {},
            }
            string_push(&mut s, '\n');
            assert(s@ =~= before + entry_text(h@));
            i = i + 1;
        }
        s
    }
}

/// Appends `t` with tabs turned into spaces.
fn push_untabbed(s: &mut String, t: &str)
    ensures
        final(s)@ == old(s)@ + untab(t@),
{
    let v = str_chars(t);
    let mut i: usize = 0;
    while i < v.len()
        invariant
            i <= v@.len(),
            v@ == t@,
            s@ == old(s)@ + untab(v@.take(i as int)),
        decreases v@.len() - i,
    {
        let c = if v[i] == '\t' { ' ' } else { v[i] };
        string_push(s, c);
        assert(untab(v@.take(i + 1)) =~= untab(v@.take(i as int)).push(c));
        i = i + 1;
    }
    assert(v@.take(i as int) =~= v@);
}

/// Add a registered machine: it replaces the first entry with its name, or
/// joins the end of the list.
pub fn upsert_host(hosts: &mut Vec<HostEntry>, e: HostEntry)
    ensures
        ({
            let old_es = entries(old(hosts)@);
            if exists|i: int| 0 <= i < old_es.len() && old_es[i].0 == e@.0 {
                let i = choose|i: int|
                    0 <= i < old_es.len() && old_es[i].0 == e@.0 && forall|j: int| 0 <= j < i ==> old_es[j].0 != e@.0;
                entries(final(hosts)@) == old_es.update(i, e@)
            } else {
                entries(final(hosts)@) == old_es.push(e@)
            }
        }),
{
    let ghost old_es = entries(hosts@);
    let name = str_chars(e.name.as_str());
    let mut i: usize = 0;
    while i < hosts.len()
        invariant
            i <= hosts@.len(),
            hosts@ == old(hosts)@,
            old_es == entries(old(hosts)@),
            name@ == e@.0,
            forall|j: int| 0 <= j < i ==> old_es[j].0 != e@.0,
        decreases hosts@.len() - i,
    {
        let hn = str_chars(hosts[i].name.as_str());
        assert(old_es[i as int].0 == hosts@[i as int].name@);
        if crate::text::chars_eq(hn.as_slice(), name.as_slice()) {
            proof {
                let k = choose|k: int|
                    0 <= k < old_es.len() && old_es[k].0 == e@.0 && forall|j: int| 0 <= j < k ==> old_es[j].0 != e@.0;
                if k < i {
                } else if k > i {
                    assert(old_es[i as int].0 == e@.0);
                }
                assert(k == i);
            }
            let ghost ev = e@;
            hosts.set(i, e);
            assert(entries(hosts@) =~= old_es.update(i as int, ev));
            return;
        }
        i = i + 1;
    }
    let ghost ev = e@;
    hosts.push(e);
    assert(entries(hosts@) =~= old_es.push(ev));
}

/// `s` holds neither a tab nor a line feed.
pub open spec fn no_tab_nl(s: Seq<char>) -> bool {
    !s.contains('\t') && !s.contains('\n')
}

/// An entry that the machines file stores faithfully: fields without tabs or
/// line feeds, name and address already trimmed, a name that does not start a
/// comment, a command that is trimmed and not empty, and not all fields empty.
pub open spec fn savable(e: EntryView) -> bool {
    &&& no_tab_nl(e.0)
    &&& no_tab_nl(e.1)
    &&& trim(e.0) == e.0
    &&& trim(e.1) == e.1
    &&& !(e.0.len() > 0 && e.0[0] == '#')
    &&& match e.2 {
        Some(c) => no_tab_nl(c) && trim(c) == c && c.len() > 0,
        None => true,
    }
    &&& !(e.0.len() == 0 && e.1.len() == 0 && e.2 is None)
}

pub(crate) proof fn lemma_trim_start_len(s: Seq<char>)
    ensures
        trim_start(s).len() <= s.len(),
        trim_start(s) == s.skip(s.len() - trim_start(s).len()),
        s.len() > 0 && is_white(s[0]) ==> trim_start(s).len() < s.len(),
        s.len() > 0 && !is_white(s[0]) ==> trim_start(s) == s,
    decreases s.len(),
{
    if s.len() > 0 && is_white(s[0]) {
        lemma_trim_start_len(s.drop_first());
        let t = trim_start(s.drop_first());
        assert(s.drop_first().skip(s.drop_first().len() - t.len()) =~= s.skip(s.len() - t.len()));
    } else {
        assert(s.skip(0) =~= s);
    }
}

pub(crate) proof fn lemma_trim_end_len(s: Seq<char>)
    ensures
        trim_end(s).len() <= s.len(),
        s.len() > 0 && !is_white(s[0]) ==> trim_end(s).len() > 0,
        s.len() > 0 && !is_white(s.last()) ==> trim_end(s) == s,
        s.len() > 0 && is_white(s.last()) ==> trim_end(s).len() < s.len(),
    decreases s.len(),
{
    if s.len() > 0 && is_white(s.last()) {
        lemma_trim_end_len(s.drop_last());
        if s.len() > 1 && !is_white(s[0]) {
            assert(s.drop_last()[0] == s[0]);
        }
    }
}

/// A trimmed, non-empty text starts and ends with a non-space.
proof fn lemma_trimmed_ends(s: Seq<char>)
    requires
        trim(s) == s,
        s.len() > 0,
    ensures
        !is_white(s[0]),
        !is_white(s.last()),
{
    lemma_trim_start_len(s);
    let t = trim_start(s);
    lemma_trim_end_len(t);
    if t.len() == s.len() {
        assert(t =~= s);
    }
}

/// Text that starts with a non-space trims to something non-empty.
proof fn lemma_trim_keeps_first(s: Seq<char>)
    requires
        s.len() > 0,
        !is_white(s[0]),
    ensures
        trim(s).len() > 0,
{
    lemma_trim_start_len(s);
    lemma_trim_end_len(s);
}

proof fn lemma_untab_id(s: Seq<char>)
    requires
        !s.contains('\t'),
    ensures
        untab(s) == s,
{
    assert forall|i: int| 0 <= i < s.len() implies untab(s)[i] == s[i] by {
        if s[i] == '\t' {
            assert(s.contains('\t'));
        }
    }
    assert(untab(s) =~= s);
}

/// Splitting `a`, tab, `b`, tab, `c` at tabs gives back the three parts.
proof fn lemma_split_three(a: Seq<char>, b: Seq<char>, c: Seq<char>)
    requires
        !a.contains('\t'),
        !b.contains('\t'),
        !c.contains('\t'),
    ensures
        split_on(a + seq!['\t'] + b + seq!['\t'] + c, '\t') == seq![a, b, c],
{
    let s = a + seq!['\t'] + b + seq!['\t'] + c;
    assert forall|j: int| 0 <= j < a.len() implies s[j] != '\t' by {
        assert(s[j] == a[j]);
    }
    lemma_first_at_is(s, '\t', a.len() as int);
    let r1 = s.skip(a.len() as int + 1);
    assert(r1 =~= b + seq!['\t'] + c);
    assert(s.take(a.len() as int) =~= a);
    assert forall|j: int| 0 <= j < b.len() implies r1[j] != '\t' by {
        assert(r1[j] == b[j]);
    }
    lemma_first_at_is(r1, '\t', b.len() as int);
    let r2 = r1.skip(b.len() as int + 1);
    assert(r2 =~= c);
    assert(r1.take(b.len() as int) =~= b);
    assert forall|j: int| 0 <= j < c.len() implies r2[j] != '\t' by {
        assert(r2[j] == c[j]);
    }
    lemma_first_at_is(r2, '\t', -1);
    assert(split_on(r2, '\t') == seq![r2]);
    assert(split_on(r1, '\t') =~= seq![b] + seq![c]);
    assert(split_on(s, '\t') =~= seq![a] + seq![b, c]);
}

/// Lines of text ending in a line feed, followed by more text.
proof fn lemma_lines_concat(a: Seq<char>, b: Seq<char>)
    requires
        a.len() == 0 || a.last() == '\n',
    ensures
        lines_of(a + b) == lines_of(a) + lines_of(b),
    decreases a.len(),
{
    if a.len() == 0 {
        assert(a + b =~= b);
        assert(lines_of(a) + lines_of(b) =~= lines_of(b));
    } else {
        let s = a + b;
        lemma_first_at(a, '\n');
        let i = first_at(a, '\n');
        assert(i >= 0) by {
            if i < 0 {
                assert(a[a.len() - 1] == '\n');
            }
        }
        assert forall|j: int| 0 <= j < i implies s[j] != '\n' by {
            assert(s[j] == a[j]);
        }
        lemma_first_at_is(s, '\n', i);
        assert(s.take(i) =~= a.take(i));
        let rest = a.skip(i + 1);
        assert(s.skip(i + 1) =~= rest + b);
        if rest.len() > 0 {
            assert(rest.last() == a.last());
        }
        lemma_lines_concat(rest, b);
        assert(lines_of(a) == seq![line_body(a.take(i))] + lines_of(rest));
        assert(lines_of(s) == seq![line_body(a.take(i))] + lines_of(rest + b));
        assert(lines_of(s) =~= lines_of(a) + lines_of(b));
    }
}

/// One line feed-free line, terminated.
proof fn lemma_lines_one(l: Seq<char>)
    requires
        !l.contains('\n'),
    ensures
        lines_of(l + seq!['\n']) == seq![line_body(l)],
{
    let s = l + seq!['\n'];
    assert forall|j: int| 0 <= j < l.len() implies s[j] != '\n' by {
        assert(s[j] == l[j]);
        if l[j] == '\n' {
            assert(l.contains('\n'));
        }
    }
    lemma_first_at_is(s, '\n', l.len() as int);
    assert(s.take(l.len() as int) =~= l);
    assert(s.skip(l.len() as int + 1) =~= Seq::<char>::empty());
    assert(lines_of(Seq::<char>::empty()) == Seq::<Seq<char>>::empty());
    assert(lines_of(s) == seq![line_body(s.take(l.len() as int))] + lines_of(s.skip(l.len() as int + 1)));
    assert(lines_of(s) =~= seq![line_body(l)]);
}

proof fn lemma_entries_in_concat(x: Seq<Seq<char>>, y: Seq<Seq<char>>)
    ensures
        entries_in(x + y) == entries_in(x) + entries_in(y),
    decreases x.len(),
{
    if x.len() == 0 {
        assert(x + y =~= y);
        assert(entries_in(x) + entries_in(y) =~= entries_in(y));
    } else {
        lemma_entries_in_concat(x.drop_first(), y);
        assert((x + y).drop_first() =~= x.drop_first() + y);
        assert((x + y)[0] == x[0]);
        let e = entries_in(x.drop_first() + y);
        assert(entries_in(x + y) =~= entries_in(x) + entries_in(y));
    }
}

/// The body of an entry's line (without its line feed).
pub open spec fn entry_body(e: EntryView) -> Seq<char> {
    untab(e.0) + seq!['\t'] + untab(e.1) + seq!['\t'] + (match e.2 {
        Some(c) => c,
        None => seq![],
    })
}

/// A savable entry's line reads back as the entry.
proof fn lemma_entry_line(e: EntryView)
    requires
        savable(e),
    ensures
        entries_in(lines_of(entry_text(e))) == seq![e],
{
    let cmd = match e.2 {
        Some(c) => c,
        None => seq![],
    };
    let body = entry_body(e);
    lemma_untab_id(e.0);
    lemma_untab_id(e.1);
    assert(body =~= e.0 + seq!['\t'] + e.1 + seq!['\t'] + cmd);
    assert(entry_text(e) =~= body + seq!['\n']);
    assert(!body.contains('\n')) by {
        if body.contains('\n') {
            let k = choose|k: int| 0 <= k < body.len() && body[k] == '\n';
            if k < e.0.len() {
                assert(e.0[k] == '\n');
            } else if k == e.0.len() {
            } else if k < e.0.len() + 1 + e.1.len() {
                assert(e.1[k - e.0.len() - 1] == '\n');
            } else if k == e.0.len() + 1 + e.1.len() {
            } else {
                assert(cmd[k - e.0.len() - 2 - e.1.len()] == '\n');
            }
        }
    }
    lemma_lines_one(body);
    // No carriage return ends the body: it ends with the trimmed command or a tab.
    match e.2 {
        Some(c) => {
            lemma_trimmed_ends(c);
            assert(body.last() == c.last());
        },
        None => {
            assert(body.last() == '\t');
        },
    }
    assert(line_body(body) == body);
    lemma_split_three(e.0, e.1, cmd);
    // The line holds an entry: its first character is not a space, or a later one is not.
    if e.0.len() > 0 {
        lemma_trimmed_ends(e.0);
        assert(body[0] == e.0[0]);
        lemma_trim_keeps_first(body);
    } else if e.1.len() > 0 {
        lemma_trimmed_ends(e.1);
        lemma_trim_nonempty(body, 1);
    } else {
        let c = cmd;
        lemma_trimmed_ends(c);
        lemma_trim_nonempty(body, 2);
    }
    if cmd.len() > 0 {
        assert(trim(cmd) == cmd);
    } else {
        assert(trim(cmd) =~= Seq::<char>::empty()) by {
            assert(trim_start(cmd) == cmd);
            assert(trim_end(cmd) == cmd);
        }
    }
    assert(line_entry(body) == Some(e));
    assert(lines_of(entry_text(e)) == seq![body]);
    assert(seq![body].drop_first() =~= Seq::<Seq<char>>::empty());
    assert(entries_in(Seq::<Seq<char>>::empty()) == Seq::<EntryView>::empty());
    assert(entries_in(seq![body]) =~= seq![e]);
}

/// Text with a non-space anywhere trims to something non-empty.
proof fn lemma_trim_nonempty(s: Seq<char>, i: int)
    requires
        0 <= i < s.len(),
        !is_white(s[i]),
    ensures
        trim(s).len() > 0,
    decreases s.len(),
{
    if is_white(s[0]) {
        lemma_trim_nonempty(s.drop_first(), i - 1);
        assert(trim_start(s) == trim_start(s.drop_first()));
    } else {
        lemma_trim_keeps_first(s);
    }
}

proof fn lemma_entries_text(es: Seq<EntryView>, k: int)
    requires
        0 <= k <= es.len(),
        forall|i: int| 0 <= i < es.len() ==> savable(#[trigger] es[i]),
    ensures
        entries_in(lines_of(entries_text(es, k))) == es.take(k),
        entries_text(es, k).len() == 0 || entries_text(es, k).last() == '\n',
    decreases k,
{
    if k == 0 {
        assert(lines_of(Seq::<char>::empty()) =~= Seq::<Seq<char>>::empty());
        assert(es.take(0) =~= Seq::<EntryView>::empty());
    } else {
        lemma_entries_text(es, k - 1);
        let prev = entries_text(es, k - 1);
        let line = entry_text(es[k - 1]);
        lemma_lines_concat(prev, line);
        lemma_entries_in_concat(lines_of(prev), lines_of(line));
        lemma_entry_line(es[k - 1]);
        assert(es.take(k) =~= es.take(k - 1) + seq![es[k - 1]]);
        assert((prev + line).last() == '\n');
    }
}

/// Law: the machines file reads back what was written. Loading the text
/// `list_text` makes of savable entries gives those entries, in order.
pub proof fn lemma_hosts_round_trip(es: Seq<EntryView>)
    requires
        forall|i: int| 0 <= i < es.len() ==> savable(#[trigger] es[i]),
    ensures
        entries_in(lines_of(hosts_file(es))) == es,
{
    let h = hosts_header();
    reveal_strlit("# koboterm machines: name<TAB>user@host[:port]<TAB>command\n");
    let body = h.drop_last();
    assert(h =~= body + seq!['\n']);
    assert(!body.contains('\n'));
    lemma_lines_one(body);
    assert(body[0] == '#');
    assert(entries_in(lines_of(h)) =~= Seq::<EntryView>::empty()) by {
        assert(line_body(body) == body);
        assert(lines_of(h) == seq![body]);
        assert(seq![body].drop_first() =~= Seq::<Seq<char>>::empty());
        assert(entries_in(Seq::<Seq<char>>::empty()) == Seq::<EntryView>::empty());
        assert(!entry_line(body));
    }
    lemma_entries_text(es, es.len() as int);
    lemma_lines_concat(h, entries_text(es, es.len() as int));
    lemma_entries_in_concat(lines_of(h), lines_of(entries_text(es, es.len() as int)));
    assert(es.take(es.len() as int) =~= es);
    assert(entries_in(lines_of(hosts_file(es))) =~= es);
}

#[derive(Clone, Copy, Debug, PartialEq, Eq, Structural)]
pub struct Settings {
    pub size: TextSize,
    pub margin: u32,
}

/// Settings before any line is read.
pub open spec fn default_settings() -> Settings {
    Settings { size: TextSize::Medium, margin: 12 }
}

/// The text size a name stands for: `small`, `large`, anything else medium.
pub open spec fn size_of_name(s: Seq<char>) -> TextSize {
    if s == size_name(TextSize::Small) {
        TextSize::Small
    } else if s == size_name(TextSize::Large) {
        TextSize::Large
    } else {
        TextSize::Medium
    }
}

/// Settings after the first `k` lines: `size=` and `margin=` lines (keys and
/// values trimmed) set their field, a margin that is not a number resets it
/// to 12, other lines change nothing.
pub open spec fn settings_after(lines: Seq<Seq<char>>, k: int) -> Settings
    decreases k,
{
    if k <= 0 {
        default_settings()
    } else {
        let s = settings_after(lines, k - 1);
        match split_once(lines[k - 1], '=') {
            Some((key, v)) => if trim(key) == "size"@ {
                Settings { size: size_of_name(trim(v)), ..s }
            } else if trim(key) == "margin"@ {
                Settings {
                    margin: match parse_int(trim(v), 10, false, 0, u32::MAX as int) {
                        Some(m) => m as u32,
                        None => 12,
                    },
                    ..s
                }
            } else {
                s
            },
            None => s,
        }
    }
}

/// The settings file's text for `s`.
pub open spec fn settings_text(s: Settings) -> Seq<char> {
    "size="@ + size_name(s.size) + "\nmargin="@ + decimal(s.margin as nat) + seq!['\n']
}

impl Settings {
    /// Settings from a settings file's text.
    pub fn from_text(txt: &str) -> (s: Settings)
        ensures
            s == settings_after(lines_of(txt@), lines_of(txt@).len() as int),
    {
        let tv = str_chars(txt);
        let ls = lines_chars(tv.as_slice());
        let ghost lv = char_views(ls@);
        let size_key = str_chars("size");
        let margin_key = str_chars("margin");
        let mut s = Settings { size: TextSize::Medium, margin: 12 };
        let mut i: usize = 0;
        while i < ls.len()
            invariant
                i <= ls@.len(),
                lv == char_views(ls@),
                lv == lines_of(txt@),
                size_key@ == "size"@,
                margin_key@ == "margin"@,
                s == settings_after(lv, i as int),
            decreases ls@.len() - i,
        {
            assert(lv[i as int] == ls@[i as int]@);
            match split_once_chars(ls[i].as_slice(), '=') {
                Some((k, v)) => {
                    let key = trim_chars(k.as_slice());
                    let val = trim_chars(v.as_slice());
                    if crate::text::chars_eq(key.as_slice(), size_key.as_slice()) {
                        let vs = chars_to_string(val.as_slice());
                        s.size = TextSize::parse(vs.as_str());
                    } else if crate::text::chars_eq(key.as_slice(), margin_key.as_slice()) {
                        s.margin = match parse_int_chars(val.as_slice(), 10, false, 0, u32::MAX as i128) {
                            Some(m) => m as u32,
                            None => 12,
                        };
                    }
                },
                None => {},
            }
            i = i + 1;
        }
        s
    }

    /// The settings file's text.
    pub fn text(&self) -> (t: String)
        ensures
            t@ == settings_text(*self),
    {
        let mut t = String::new();
        push_str(&mut t, "size=");
        push_str(&mut t, self.size.name());
        push_str(&mut t, "\nmargin=");
        push_decimal(&mut t, self.margin as u64);
        string_push(&mut t, '\n');
        t
    }
}

pub(crate) proof fn lemma_decimal_digits(n: nat)
    ensures
        all_digits(decimal(n), 10),
        digits_value(decimal(n), 10) == n,
        decimal(n).len() > 0,
        !decimal(n).contains('='),
        !decimal(n).contains('\n'),
        !is_white(decimal(n)[0]),
        !is_white(decimal(n).last()),
        decimal(n)[0] != '+' && decimal(n)[0] != '-',
    decreases n,
{
    let d = decimal(n);
    if n < 10 {
        assert(digit_value(d[0], 10) == n);
        assert(d.drop_last() =~= Seq::<char>::empty());
        assert(digits_value(Seq::<char>::empty(), 10) == 0);
        assert(digits_value(d, 10) == digits_value(d.drop_last(), 10) * 10 + digit_value(d.last(), 10));
    } else {
        lemma_decimal_digits(n / 10);
        let p = decimal(n / 10);
        assert(d.drop_last() =~= p);
        assert(digits_value(d, 10) == digits_value(p, 10) * 10 + digit_value(d.last(), 10));
        assert(digit_value(d.last(), 10) == n % 10);
        assert forall|i: int| 0 <= i < d.len() implies digit_value(#[trigger] d[i], 10) >= 0 by {
            if i < p.len() {
                assert(d[i] == p[i]);
            }
        }
        assert(!d.contains('=')) by {
            if d.contains('=') {
                let k = choose|k: int| 0 <= k < d.len() && d[k] == '=';
                if k < p.len() {
                    assert(p[k] == '=');
                }
            }
        }
        assert(!d.contains('\n')) by {
            if d.contains('\n') {
                let k = choose|k: int| 0 <= k < d.len() && d[k] == '\n';
                if k < p.len() {
                    assert(p[k] == '\n');
                }
            }
        }
        assert(d[0] == p[0]);
    }
}

/// A text that starts and ends with a non-space is its own trim.
proof fn lemma_trim_id(s: Seq<char>)
    requires
        s.len() > 0,
        !is_white(s[0]),
        !is_white(s.last()),
    ensures
        trim(s) == s,
{
    lemma_trim_start_len(s);
    lemma_trim_end_len(s);
}

/// The line `key=value` splits into its key and value.
proof fn lemma_key_value(key: Seq<char>, v: Seq<char>)
    requires
        !key.contains('='),
    ensures
        split_once(key + seq!['='] + v, '=') == Some((key, v)),
{
    let l = key + seq!['='] + v;
    assert forall|j: int| 0 <= j < key.len() implies l[j] != '=' by {
        assert(l[j] == key[j]);
        if key[j] == '=' {
            assert(key.contains('='));
        }
    }
    lemma_first_at_is(l, '=', key.len() as int);
    assert(l.take(key.len() as int) =~= key);
    assert(l.skip(key.len() as int + 1) =~= v);
}

/// Law: the settings file reads back what was written.
pub proof fn lemma_settings_round_trip(s: Settings)
    ensures
        settings_after(lines_of(settings_text(s)), lines_of(settings_text(s)).len() as int) == s,
{
    reveal_strlit("size=");
    reveal_strlit("\nmargin=");
    reveal_strlit("size");
    reveal_strlit("margin");
    let name = size_name(s.size);
    let num = decimal(s.margin as nat);
    lemma_decimal_digits(s.margin as nat);
    let l1 = "size"@ + seq!['='] + name;
    let l2 = "margin"@ + seq!['='] + num;
    assert(settings_text(s) =~= (l1 + seq!['\n']) + (l2 + seq!['\n']));
    assert(!l1.contains('\n'));
    assert(!l2.contains('\n')) by {
        if l2.contains('\n') {
            let k = choose|k: int| 0 <= k < l2.len() && l2[k] == '\n';
            assert(num[k - 7] == '\n');
        }
    }
    lemma_lines_one(l1);
    lemma_lines_one(l2);
    lemma_lines_concat(l1 + seq!['\n'], l2 + seq!['\n']);
    let lv = lines_of(settings_text(s));
    assert(line_body(l1) == l1);
    assert(line_body(l2) == l2);
    assert(lv =~= seq![l1, l2]);
    lemma_key_value("size"@, name);
    lemma_key_value("margin"@, num);
    lemma_trim_id("size"@);
    lemma_trim_id("margin"@);
    lemma_trim_id(name);
    lemma_trim_id(num);
    assert(size_of_name(name) == s.size);
    assert(parse_int(num, 10, false, 0, u32::MAX as int) == Some(s.margin as int));
    assert(lv[0] == l1);
    assert(split_once(lv[0], '=') == Some(("size"@, name)));
    assert(trim("size"@) == "size"@);
    assert(trim(name) == name);
    assert(size_of_name(name) == s.size);
    assert(settings_after(lv, 0) == default_settings());
    assert(settings_after(lv, 1) == Settings { size: s.size, ..default_settings() });
}

} // verus!
