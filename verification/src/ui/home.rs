//! Home screen: saved machines, an add form, the device's public key and the
//! pairing command.

use vstd::prelude::*;
use crate::panel::{CellRect, Geometry, Panel, PanelOp, Waveform, rect_in};
use crate::text::{chars_contain, chars_eq, chars_to_string, str_chars, string_pop, string_push, trim, trim_chars};
use crate::ui::draw::{
    appended, button_chars, button_ok, button_ops, fill, fill_ok, fill_ops, frame, frame_ok,
    frame_ops, put, put_ops, text_chars, text_ops,
};

verus! {

#[derive(Clone, Debug, PartialEq, Eq)]
pub struct HostEntry {
    pub name: String,
    /// `user@host[:port]`
    pub spec: String,
    /// Remote command instead of a login shell, e.g. `tmux new -A -s kobo`.
    pub command: Option<String>,
}

#[derive(Clone, Copy, Debug, PartialEq, Eq, Structural)]
pub enum TextSize {
    Small,
    Medium,
    Large,
}

pub open spec fn size_name(s: TextSize) -> Seq<char> {
    match s {
        TextSize::Small => seq!['s', 'm', 'a', 'l', 'l'],
        TextSize::Medium => seq!['m', 'e', 'd', 'i', 'u', 'm'],
        TextSize::Large => seq!['l', 'a', 'r', 'g', 'e'],
    }
}

impl TextSize {
    /// `small` and `large` name their sizes; anything else is Medium.
    pub fn parse(s: &str) -> (t: TextSize)
        ensures
            t == (if s@ == size_name(TextSize::Small) {
                TextSize::Small
            } else if s@ == size_name(TextSize::Large) {
                TextSize::Large
            } else {
                TextSize::Medium
            }),
    {
        let v = str_chars(s);
        if chars_eq(v.as_slice(), &['s', 'm', 'a', 'l', 'l']) {
            TextSize::Small
        } else if chars_eq(v.as_slice(), &['l', 'a', 'r', 'g', 'e']) {
            TextSize::Large
        } else {
            TextSize::Medium
        }
    }

    pub fn name(self) -> (r: &'static str)
        ensures
            r@ == size_name(self),
    {
        proof {
            reveal_strlit("small");
            reveal_strlit("medium");
            reveal_strlit("large");
        }
        match self {
            TextSize::Small => "small",
            TextSize::Medium => "medium",
            TextSize::Large => "large",
        }
    }
}

#[derive(Clone, Copy, Debug, PartialEq, Eq, Structural)]
pub enum HomeAction {
    Connect(usize),
    Add,
    Quit,
    Size(TextSize),
    Nothing,
}

const ENTRY_H: u16 = 3;

const LIST_TOP: u16 = 5;

pub struct Home {
    pub cols: u16,
    pub rows: u16,
    /// Machines shown by the last `draw`.
    pub n: usize,
}

/// Rectangle of machine `i` in the list.
pub open spec fn entry_rect_spec(cols: int, i: int) -> CellRect {
    CellRect { col: 1, row: (5 + i * 3) as u16, cols: (cols - 2) as u16, rows: 3 }
}

pub open spec fn quit_rect_spec(cols: int, rows: int) -> CellRect {
    CellRect { col: (cols - 9) as u16, row: (rows - 4) as u16, cols: 8, rows: 3 }
}

pub open spec fn size_index(s: TextSize) -> int {
    match s {
        TextSize::Small => 0,
        TextSize::Medium => 1,
        TextSize::Large => 2,
    }
}

pub open spec fn size_rect_spec(cols: int, s: TextSize) -> CellRect {
    CellRect { col: (cols - 16 + size_index(s) * 5) as u16, row: 0, cols: 5, rows: 3 }
}

/// The first of machines `0 .. n` whose entry holds `(col, row)`.
pub open spec fn entry_hit(cols: int, n: int, col: int, row: int) -> Option<usize>
    decreases n,
{
    if n <= 0 {
        None
    } else {
        match entry_hit(cols, n - 1, col, row) {
            Some(i) => Some(i),
            None => if entry_rect_spec(cols, n - 1).has(col, row) { Some((n - 1) as usize) } else { None },
        }
    }
}

impl Home {
    /// The layout's rectangles are representable: the grid is at least 16
    /// columns and 4 rows, and the list with its add button fits in `u16` rows.
    pub open spec fn wf(&self) -> bool {
        &&& self.cols >= 16
        &&& self.rows >= 4
        &&& 5 + (self.n + 1) * 3 + 3 <= u16::MAX
    }

    /// What a tap at `(col, row)` means: a machine, the add button, Quit, a text size, or nothing.
    pub open spec fn hit_spec(&self, col: int, row: int) -> HomeAction {
        let cols = self.cols as int;
        match entry_hit(cols, self.n as int, col, row) {
            Some(i) => HomeAction::Connect(i),
            None => if entry_rect_spec(cols, self.n as int).has(col, row) {
                HomeAction::Add
            } else if quit_rect_spec(cols, self.rows as int).has(col, row) {
                HomeAction::Quit
            } else if size_rect_spec(cols, TextSize::Small).has(col, row) {
                HomeAction::Size(TextSize::Small)
            } else if size_rect_spec(cols, TextSize::Medium).has(col, row) {
                HomeAction::Size(TextSize::Medium)
            } else if size_rect_spec(cols, TextSize::Large).has(col, row) {
                HomeAction::Size(TextSize::Large)
            } else {
                HomeAction::Nothing
            }
        }
    }

    pub fn new(cols: u16, rows: u16) -> (h: Home)
        ensures
            h.cols == cols && h.rows == rows && h.n == 0,
    {
        Home { cols, rows, n: 0 }
    }

    fn entry_rect(&self, i: usize) -> (r: CellRect)
        requires
            self.cols >= 2,
            5 + i * 3 <= u16::MAX,
        ensures
            r == entry_rect_spec(self.cols as int, i as int),
    {
        CellRect { col: 1, row: LIST_TOP + i as u16 * ENTRY_H, cols: self.cols - 2, rows: ENTRY_H }
    }

    fn add_rect(&self) -> (r: CellRect)
        requires
            self.wf(),
        ensures
            r == entry_rect_spec(self.cols as int, self.n as int),
    {
        self.entry_rect(self.n)
    }

    fn quit_rect(&self) -> (r: CellRect)
        requires
            self.wf(),
        ensures
            r == quit_rect_spec(self.cols as int, self.rows as int),
    {
        CellRect { col: self.cols - 9, row: self.rows - 4, cols: 8, rows: 3 }
    }

    fn size_rect(&self, s: TextSize) -> (r: CellRect)
        requires
            self.wf(),
        ensures
            r == size_rect_spec(self.cols as int, s),
    {
        let i: u16 = match s {
            TextSize::Small => 0,
            TextSize::Medium => 1,
            TextSize::Large => 2,
        };
        CellRect { col: self.cols - 16 + i * 5, row: 0, cols: 5, rows: 3 }
    }

    pub fn hit(&self, col: u16, row: u16) -> (a: HomeAction)
        requires
            self.wf(),
        ensures
            a == self.hit_spec(col as int, row as int),
    {
        let mut i: usize = 0;
        while i < self.n
            invariant
                self.wf(),
                i <= self.n,
                entry_hit(self.cols as int, i as int, col as int, row as int) is None,
            decreases self.n - i,
        {
            if self.entry_rect(i).holds(col, row) {
                proof {
                    lemma_entry_hit_found(self.cols as int, i + 1, self.n as int, col as int, row as int);
                }
                return HomeAction::Connect(i);
            }
            i = i + 1;
        }
        if self.add_rect().holds(col, row) {
            return HomeAction::Add;
        }
        if self.quit_rect().holds(col, row) {
            return HomeAction::Quit;
        }
        if self.size_rect(TextSize::Small).holds(col, row) {
            return HomeAction::Size(TextSize::Small);
        }
        if self.size_rect(TextSize::Medium).holds(col, row) {
            return HomeAction::Size(TextSize::Medium);
        }
        if self.size_rect(TextSize::Large).holds(col, row) {
            return HomeAction::Size(TextSize::Large);
        }
        HomeAction::Nothing
    }
}

proof fn lemma_entry_hit_found(cols: int, k: int, n: int, col: int, row: int)
    requires
        0 <= k <= n,
        entry_hit(cols, k, col, row) is Some,
    ensures
        entry_hit(cols, n, col, row) == entry_hit(cols, k, col, row),
    decreases n - k,
{
    if n > k {
        lemma_entry_hit_found(cols, k, n - 1, col, row);
    }
}


/// `s` cut into consecutive pieces of `w` characters, the last one possibly shorter.
pub open spec fn chunks(s: Seq<char>, w: int) -> Seq<Seq<char>>
    decreases s.len(),
{
    if s.len() == 0 {
        seq![]
    } else if w <= 0 || s.len() <= w {
        seq![s]
    } else {
        seq![s.take(w)] + chunks(s.skip(w), w)
    }
}

/// The characters of `v`'s strings.
pub open spec fn views(v: Seq<Vec<char>>) -> Seq<Seq<char>> {
    Seq::new(v.len(), |i: int| v[i]@)
}

fn wrap(s: &[char], w: usize) -> (lines: Vec<Vec<char>>)
    requires
        w >= 1,
    ensures
        views(lines@) == chunks(s@, w as int),
{
    let mut lines: Vec<Vec<char>> = Vec::new();
    let mut pos: usize = 0;
    assert(s@.skip(0) =~= s@);
    while pos < s.len()
        invariant
            w >= 1,
            pos <= s@.len(),
            views(lines@) + chunks(s@.skip(pos as int), w as int) == chunks(s@, w as int),
        decreases s@.len() - pos,
    {
        let end = if s.len() - pos <= w { s.len() } else { pos + w };
        let mut piece: Vec<char> = Vec::new();
        let mut k = pos;
        while k < end
            invariant
                pos <= k <= end <= s@.len(),
                piece@ == s@.subrange(pos as int, k as int),
            decreases end - k,
        {
            piece.push(s[k]);
            assert(s@.subrange(pos as int, k + 1) =~= s@.subrange(pos as int, k as int).push(s@[k as int]));
            k = k + 1;
        }
        let ghost rest = s@.skip(pos as int);
        assert(chunks(rest, w as int) == seq![piece@] + chunks(s@.skip(end as int), w as int)) by {
            if rest.len() <= w {
                assert(piece@ =~= rest);
                assert(s@.skip(end as int) =~= Seq::<char>::empty());
            } else {
                assert(piece@ =~= rest.take(w as int));
                assert(rest.skip(w as int) =~= s@.skip(end as int));
            }
        }
        let ghost before = views(lines@);
        lines.push(piece);
        assert(views(lines@) =~= before.push(piece@));
        assert(views(lines@) + chunks(s@.skip(end as int), w as int) =~= before + (seq![piece@] + chunks(s@.skip(end as int), w as int)));
        pos = end;
    }
    assert(s@.skip(pos as int) =~= Seq::<char>::empty());
    assert(views(lines@) + chunks(s@.skip(pos as int), w as int) =~= views(lines@));
    lines
}

/// Lines `0 .. n` of `ls`, one per row from `row`, at column 1.
pub open spec fn lines_ops(g: Geometry, ls: Seq<Seq<char>>, n: int, row: int, bold: bool) -> Seq<PanelOp>
    decreases n,
{
    if n <= 0 {
        seq![]
    } else {
        lines_ops(g, ls, n - 1, row, bold) + text_ops(g, 1, row + n - 1, ls[n - 1], bold, false)
    }
}

fn draw_lines<P: Panel>(panel: &mut P, ls: &Vec<Vec<char>>, n: usize, row: u16, bold: bool)
    requires
        old(panel).inv(),
        n <= ls@.len(),
        row + n <= u16::MAX,
        forall|k: int| 0 <= k < n ==> 1 + (#[trigger] ls@[k])@.len() <= u16::MAX + 1,
    ensures
        appended(*old(panel), *final(panel), lines_ops(old(panel).geo(), views(ls@), n as int, row as int, bold)),
{
    let ghost g = panel.geo();
    let ghost start = panel.ops();
    let mut k: usize = 0;
    assert(start =~= start + lines_ops(g, views(ls@), 0, row as int, bold));
    while k < n
        invariant
            k <= n <= ls@.len(),
            row + n <= u16::MAX,
            forall|j: int| 0 <= j < n ==> 1 + (#[trigger] ls@[j])@.len() <= u16::MAX + 1,
            panel.inv(),
            panel.geo() == g,
            panel.ops() == start + lines_ops(g, views(ls@), k as int, row as int, bold),
        decreases n - k,
    {
        assert(1 + ls@[k as int]@.len() <= u16::MAX + 1);
        text_chars(panel, 1, row + k as u16, ls[k].as_slice(), bold, false);
        assert(views(ls@)[k as int] == ls@[k as int]@);
        assert(panel.ops() =~= start + lines_ops(g, views(ls@), k + 1, row as int, bold));
        k = k + 1;
    }
}

pub open spec fn koboterm_chars() -> Seq<char> {
    seq!['k', 'o', 'b', 'o', 't', 'e', 'r', 'm']
}

pub open spec fn machines_chars() -> Seq<char> {
    seq!['M', 'a', 'c', 'h', 'i', 'n', 'e', 's']
}

pub open spec fn add_chars() -> Seq<char> {
    seq!['+', ' ', 'a', 'd', 'd', ' ', 'a', ' ', 'm', 'a', 'c', 'h', 'i', 'n', 'e']
}

pub open spec fn quit_chars() -> Seq<char> {
    seq!['Q', 'u', 'i', 't']
}

pub open spec fn auto_chars() -> Seq<char> {
    seq!['T','o',' ','a','d','d',' ','a',' ','m','a','c','h','i','n','e',' ','a','u','t','o','m','a','t','i','c','a','l','l','y',',',' ','r','u','n',' ','t','h','i','s',' ','o','n',' ','i','t',':']
}

pub open spec fn key_hint_chars() -> Seq<char> {
    seq!['O','r',' ','a','d','d',' ','t','h','i','s',' ','d','e','v','i','c','e','\'','s',' ','k','e','y',' ','t','o',' ','~','/','.','s','s','h','/','a','u','t','h','o','r','i','z','e','d','_','k','e','y','s',':']
}

/// The pairing command shown for the pairing server at `url`.
pub open spec fn curl_chars(url: Seq<char>) -> Seq<char> {
    seq!['c','u','r','l',' ','-','f','s','S','L',' '] + url + seq!['/','i','n','s','t','a','l','l','.','s','h',' ','|',' ','s','h']
}

/// Column where a machine's address starts: right-aligned, but never over its name.
pub open spec fn spec_col(r: CellRect, h: HostEntry) -> int {
    let right = r.col + r.cols - 2 - h.spec@.len();
    let after_name = r.col + 3 + h.name@.len();
    if right >= after_name { right } else { after_name }
}

/// The requests drawing machines `0 .. n` makes.
pub open spec fn hosts_ops(g: Geometry, cols: int, hosts: Seq<HostEntry>, n: int) -> Seq<PanelOp>
    decreases n,
{
    if n <= 0 {
        seq![]
    } else {
        let r = entry_rect_spec(cols, n - 1);
        let h = hosts[n - 1];
        hosts_ops(g, cols, hosts, n - 1) + frame_ops(g, r, false) + text_ops(g, r.col + 2, r.row + 1, h.name@, true, false)
            + text_ops(g, spec_col(r, h), r.row + 1, h.spec@, false, false)
    }
}

/// The machine list fits its entry rectangles.
pub open spec fn host_ok(cols: int, h: HostEntry) -> bool {
    &&& h.spec@.len() + 3 <= cols
    &&& 4 + h.name@.len() + h.spec@.len() <= u16::MAX
    &&& cols - 1 <= u16::MAX
}

impl Home {
    /// The header: cleared screen, title, status, size buttons, list heading.
    pub open spec fn header_ops(&self, g: Geometry, status: Seq<char>, size: TextSize) -> Seq<PanelOp> {
        let cols = self.cols as int;
        let full = CellRect { col: 0, row: 0, cols: self.cols, rows: self.rows };
        let keep = if cols >= 28 { cols - 28 } else { 0 };
        let st = if status.len() <= keep { status } else { status.take(keep) };
        fill_ops(g, full, ' ', false) + text_ops(g, 1, 1, koboterm_chars(), true, false) + text_ops(g, 11, 1, st, false, false)
            + button_ops(g, size_rect_spec(cols, TextSize::Small), seq!['S'], size == TextSize::Small)
            + button_ops(g, size_rect_spec(cols, TextSize::Medium), seq!['M'], size == TextSize::Medium)
            + button_ops(g, size_rect_spec(cols, TextSize::Large), seq!['L'], size == TextSize::Large)
            + text_ops(g, 1, 4, machines_chars(), false, false)
    }

    /// First row of the pairing instructions.
    pub open spec fn block_row(&self, n: int, curl_lines: int, key_lines: int) -> int {
        let block = 2 + curl_lines + 1 + key_lines;
        let from_bottom = if self.rows >= 5 + block { self.rows - (5 + block) } else { 0 };
        let below_add = entry_rect_spec(self.cols as int, n).row + 3 + 1;
        if from_bottom >= below_add { from_bottom } else { below_add }
    }

    /// The pairing instructions: the command, then the device key (at most three lines).
    pub open spec fn block_ops(&self, g: Geometry, n: int, pubkey: Seq<char>, url: Seq<char>) -> Seq<PanelOp> {
        let w = self.cols - 2;
        let key_lines = chunks(trim(pubkey), w);
        let curl_lines = chunks(curl_chars(url), w);
        let row0 = self.block_row(n, curl_lines.len() as int, key_lines.len() as int);
        let shown_keys = if key_lines.len() <= 3 { key_lines.len() as int } else { 3 };
        text_ops(g, 1, row0, auto_chars(), false, false) + lines_ops(g, curl_lines, curl_lines.len() as int, row0 + 1, true)
            + text_ops(g, 1, row0 + 2 + curl_lines.len(), key_hint_chars(), false, false)
            + lines_ops(g, key_lines, shown_keys, row0 + 3 + curl_lines.len(), false)
    }

    /// The requests `draw` makes.
    pub open spec fn draw_spec(&self, g: Geometry, hosts: Seq<HostEntry>, pubkey: Seq<char>, url: Seq<char>, status: Seq<char>, size: TextSize) -> Seq<PanelOp> {
        let cols = self.cols as int;
        let full = CellRect { col: 0, row: 0, cols: self.cols, rows: self.rows };
        self.header_ops(g, status, size) + hosts_ops(g, cols, hosts, hosts.len() as int)
            + button_ops(g, entry_rect_spec(cols, hosts.len() as int), add_chars(), false)
            + self.block_ops(g, hosts.len() as int, pubkey, url)
            + button_ops(g, quit_rect_spec(cols, self.rows as int), quit_chars(), false)
            + seq![PanelOp::Refresh(full, Waveform::Full)]
    }

    /// `draw` stays free of overflow and refreshes inside the panel.
    pub open spec fn draw_ok(&self, g: Geometry, hosts: Seq<HostEntry>, pubkey: Seq<char>, url: Seq<char>) -> bool {
        let w = self.cols - 2;
        let key_lines = chunks(trim(pubkey), w);
        let curl_lines = chunks(curl_chars(url), w);
        let row0 = self.block_row(hosts.len() as int, curl_lines.len() as int, key_lines.len() as int);
        &&& self.cols >= 16
        &&& self.rows >= 4
        &&& 5 + (hosts.len() + 1) * 3 + 3 <= u16::MAX
        &&& rect_in(CellRect { col: 0, row: 0, cols: self.cols, rows: self.rows }, g)
        &&& forall|i: int| 0 <= i < hosts.len() ==> host_ok(self.cols as int, #[trigger] hosts[i])
        &&& 5 + 2 + curl_lines.len() + 1 + key_lines.len() <= u16::MAX
        &&& row0 + 3 + curl_lines.len() + 3 <= u16::MAX
    }
}


impl Home {
    #[verifier::rlimit(100)]
    fn draw_header<P: Panel>(&self, panel: &mut P, status: &str, size: TextSize)
        requires
            old(panel).inv(),
            self.cols >= 16,
            self.rows >= 4,
            5 + (self.n + 1) * 3 + 3 <= u16::MAX,
        ensures
            appended(*old(panel), *final(panel), self.header_ops(old(panel).geo(), status@, size)),
    {
        let ghost g = panel.geo();
        let ghost start = panel.ops();
        let ghost cols = self.cols as int;
        let full = CellRect { col: 0, row: 0, cols: self.cols, rows: self.rows };
        fill(panel, full, ' ', false);
        let title: [char; 8] = ['k', 'o', 'b', 'o', 't', 'e', 'r', 'm'];
        assert(title@ == koboterm_chars());
        text_chars(panel, 1, 1, &title, true, false);
        let sv = str_chars(status);
        let keep: usize = if self.cols >= 28 { (self.cols - 28) as usize } else { 0 };
        let mut st: Vec<char> = Vec::new();
        let mut i: usize = 0;
        while i < sv.len() && i < keep
            invariant
                i <= sv@.len(),
                i <= keep,
                st@ == sv@.take(i as int),
            decreases sv@.len() - i,
        {
            st.push(sv[i]);
            assert(sv@.take(i + 1) =~= sv@.take(i as int).push(sv@[i as int]));
            i = i + 1;
        }
        assert(st@ =~= (if sv@.len() <= keep { sv@ } else { sv@.take(keep as int) }));
        text_chars(panel, 11, 1, st.as_slice(), false, false);
        let ghost p1 = fill_ops(g, full, ' ', false) + text_ops(g, 1, 1, koboterm_chars(), true, false) + text_ops(g, 11, 1, st@, false, false);
        assert(panel.ops() =~= start + p1);
        let sr = self.size_rect(TextSize::Small);
        let ls: [char; 1] = ['S'];
        let lm: [char; 1] = ['M'];
        let ll: [char; 1] = ['L'];
        assert(ls@ == seq!['S']);
        assert(lm@ == seq!['M']);
        assert(ll@ == seq!['L']);
        button_chars(panel, sr, &ls, size == TextSize::Small);
        let ghost p2 = p1 + button_ops(g, size_rect_spec(cols, TextSize::Small), seq!['S'], size == TextSize::Small);
        assert(panel.ops() =~= start + p2);
        let mr = self.size_rect(TextSize::Medium);
        button_chars(panel, mr, &lm, size == TextSize::Medium);
        let ghost p3 = p2 + button_ops(g, size_rect_spec(cols, TextSize::Medium), seq!['M'], size == TextSize::Medium);
        assert(panel.ops() =~= start + p3);
        let lr = self.size_rect(TextSize::Large);
        button_chars(panel, lr, &ll, size == TextSize::Large);
        let ghost p4 = p3 + button_ops(g, size_rect_spec(cols, TextSize::Large), seq!['L'], size == TextSize::Large);
        assert(panel.ops() =~= start + p4);
        let mach: [char; 8] = ['M', 'a', 'c', 'h', 'i', 'n', 'e', 's'];
        assert(mach@ == machines_chars());
        text_chars(panel, 1, 4, &mach, false, false);
        let ghost p5 = p4 + text_ops(g, 1, 4, machines_chars(), false, false);
        assert(panel.ops() =~= start + p5);
        assert(p5 == self.header_ops(g, status@, size));
    }

    fn draw_hosts<P: Panel>(&self, panel: &mut P, hosts: &[HostEntry])
        requires
            old(panel).inv(),
            self.cols >= 16,
            5 + (hosts@.len() + 1) * 3 + 3 <= u16::MAX,
            forall|i: int| 0 <= i < hosts@.len() ==> host_ok(self.cols as int, #[trigger] hosts@[i]),
        ensures
            appended(*old(panel), *final(panel), hosts_ops(old(panel).geo(), self.cols as int, hosts@, hosts@.len() as int)),
    {
        let ghost g = panel.geo();
        let ghost start = panel.ops();
        let mut i: usize = 0;
        assert(start =~= start + hosts_ops(g, self.cols as int, hosts@, 0));
        while i < hosts.len()
            invariant
                i <= hosts@.len(),
                self.cols >= 16,
                5 + (hosts@.len() + 1) * 3 + 3 <= u16::MAX,
                forall|j: int| 0 <= j < hosts@.len() ==> host_ok(self.cols as int, #[trigger] hosts@[j]),
                panel.inv(),
                panel.geo() == g,
                panel.ops() == start + hosts_ops(g, self.cols as int, hosts@, i as int),
            decreases hosts@.len() - i,
        {
            let h = &hosts[i];
            assert(host_ok(self.cols as int, hosts@[i as int]));
            assert(5 + i * 3 + 3 <= u16::MAX) by (nonlinear_arith)
                requires
                    i < hosts@.len(),
                    5 + (hosts@.len() + 1) * 3 + 3 <= u16::MAX,
            ;
            let r = self.entry_rect(i);
            frame(panel, r, false);
            let nv = str_chars(h.name.as_str());
            text_chars(panel, r.col + 2, r.row + 1, nv.as_slice(), true, false);
            let sv = str_chars(h.spec.as_str());
            let right: u16 = r.col + r.cols - 2 - sv.len() as u16;
            let after: u16 = r.col + 3 + nv.len() as u16;
            let c: u16 = if right >= after { right } else { after };
            text_chars(panel, c, r.row + 1, sv.as_slice(), false, false);
            assert(panel.ops() =~= start + hosts_ops(g, self.cols as int, hosts@, i + 1));
            i = i + 1;
        }
    }

    fn draw_block<P: Panel>(&self, panel: &mut P, n: usize, pubkey: &str, url: &str)
        requires
            old(panel).inv(),
            self.cols >= 16,
            5 + (n + 1) * 3 + 3 <= u16::MAX,
            ({
                let w = self.cols - 2;
                let key_lines = chunks(trim(pubkey@), w);
                let curl_lines = chunks(curl_chars(url@), w);
                let row0 = self.block_row(n as int, curl_lines.len() as int, key_lines.len() as int);
                &&& 5 + 2 + curl_lines.len() + 1 + key_lines.len() <= u16::MAX
                &&& row0 + 3 + curl_lines.len() + 3 <= u16::MAX
            }),
        ensures
            appended(*old(panel), *final(panel), self.block_ops(old(panel).geo(), n as int, pubkey@, url@)),
    {
        let ghost g = panel.geo();
        let ghost start = panel.ops();
        let w: usize = (self.cols - 2) as usize;
        let kv = str_chars(pubkey);
        let kt = trim_chars(kv.as_slice());
        let key_lines = wrap(kt.as_slice(), w);
        let uv = str_chars(url);
        let mut cv: Vec<char> = Vec::new();
        let head = ['c', 'u', 'r', 'l', ' ', '-', 'f', 's', 'S', 'L', ' '];
        let tail = ['/', 'i', 'n', 's', 't', 'a', 'l', 'l', '.', 's', 'h', ' ', '|', ' ', 's', 'h'];
        extend(&mut cv, &head);
        extend(&mut cv, uv.as_slice());
        extend(&mut cv, &tail);
        assert(cv@ =~= curl_chars(url@));
        let curl_lines = wrap(cv.as_slice(), w);
        let block: usize = 2 + curl_lines.len() + 1 + key_lines.len();
        let from_bottom: u16 = if self.rows as usize >= 5 + block { self.rows - (5 + block as u16) } else { 0 };
        assert(5 + (n + 1) * 3 + 3 <= u16::MAX);
        let below_add: u16 = self.entry_rect(n).row + ENTRY_H + 1;
        let mut row: u16 = if from_bottom >= below_add { from_bottom } else { below_add };
        let ghost row0 = row;
        assert(row0 == self.block_row(n as int, curl_lines@.len() as int, key_lines@.len() as int));
        text_chars(panel, 1, row, &['T','o',' ','a','d','d',' ','a',' ','m','a','c','h','i','n','e',' ','a','u','t','o','m','a','t','i','c','a','l','l','y',',',' ','r','u','n',' ','t','h','i','s',' ','o','n',' ','i','t',':'], false, false);
        row = row + 1;
        proof {
            lemma_chunks_short(curl_chars(url@), w as int);
            lemma_chunks_short(trim(pubkey@), w as int);
            assert forall|k: int| 0 <= k < curl_lines@.len() implies 1 + (#[trigger] curl_lines@[k])@.len() <= u16::MAX + 1 by {
                assert(views(curl_lines@)[k] == curl_lines@[k]@);
            }
            assert forall|k: int| 0 <= k < key_lines@.len() implies 1 + (#[trigger] key_lines@[k])@.len() <= u16::MAX + 1 by {
                assert(views(key_lines@)[k] == key_lines@[k]@);
            }
        }
        draw_lines(panel, &curl_lines, curl_lines.len(), row, true);
        row = row + curl_lines.len() as u16;
        row = row + 1;
        text_chars(panel, 1, row, &['O','r',' ','a','d','d',' ','t','h','i','s',' ','d','e','v','i','c','e','\'','s',' ','k','e','y',' ','t','o',' ','~','/','.','s','s','h','/','a','u','t','h','o','r','i','z','e','d','_','k','e','y','s',':'], false, false);
        row = row + 1;
        let shown: usize = if key_lines.len() <= 3 { key_lines.len() } else { 3 };
        draw_lines(panel, &key_lines, shown, row, false);
        assert(panel.ops() =~= start + self.block_ops(g, n as int, pubkey@, url@));
    }

    /// Whether `draw` can lay out this screen on a panel of geometry `g`:
    /// the screen is at least 16 x 4 cells and inside the panel, every
    /// machine's address fits a line, and every row number stays a `u16`.
    pub fn can_draw(&self, g: Geometry, hosts: &[HostEntry], pubkey: &str, url: &str) -> (b: bool)
        ensures
            b == self.draw_ok(g, hosts@, pubkey@, url@),
    {
        if self.cols < 16 || self.rows < 4 {
            return false;
        }
        let n = hosts.len();
        if n >= 30000 {
            assert(!(5 + (n + 1) * 3 + 3 <= u16::MAX)) by (nonlinear_arith)
                requires
                    n >= 30000,
            ;
            return false;
        }
        if 5 + (n + 1) * 3 + 3 > 65535 {
            return false;
        }
        if self.rows > g.rows || self.cols > g.cols {
            return false;
        }
        let mut i: usize = 0;
        while i < n
            invariant
                i <= n,
                n == hosts@.len(),
                self.cols >= 16,
                forall|j: int| 0 <= j < i ==> host_ok(self.cols as int, #[trigger] hosts@[j]),
            decreases n - i,
        {
            let sl = str_chars(hosts[i].spec.as_str()).len();
            let nl = str_chars(hosts[i].name.as_str()).len();
            if sl > 65535 || nl > 65535 || sl + 3 > self.cols as usize || 4 + nl + sl > 65535 {
                assert(!host_ok(self.cols as int, hosts@[i as int]));
                return false;
            }
            i = i + 1;
        }
        let w: usize = (self.cols - 2) as usize;
        let kv = str_chars(pubkey);
        let kt = trim_chars(kv.as_slice());
        let key_lines = wrap(kt.as_slice(), w);
        let uv = str_chars(url);
        let mut cv: Vec<char> = Vec::new();
        let head = ['c', 'u', 'r', 'l', ' ', '-', 'f', 's', 'S', 'L', ' '];
        let tail = ['/', 'i', 'n', 's', 't', 'a', 'l', 'l', '.', 's', 'h', ' ', '|', ' ', 's', 'h'];
        extend(&mut cv, &head);
        extend(&mut cv, uv.as_slice());
        extend(&mut cv, &tail);
        assert(cv@ =~= curl_chars(url@));
        let cn = curl_lines_len(&wrap(cv.as_slice(), w));
        let kn = key_lines.len();
        if cn > 65535 || kn > 65535 || 5 + 2 + cn + 1 + kn > 65535 {
            return false;
        }
        let block: usize = 2 + cn + 1 + kn;
        let from_bottom: u16 = if self.rows as usize >= 5 + block { self.rows - (5 + block as u16) } else { 0 };
        let below_add: u16 = self.entry_rect(n).row + ENTRY_H + 1;
        let row0: u16 = if from_bottom >= below_add { from_bottom } else { below_add };
        assert(row0 == self.block_row(n as int, cn as int, kn as int));
        row0 as usize + 3 + cn + 3 <= 65535
    }

    /// Header, machine list and the add button.
    #[verifier::spinoff_prover]
    #[verifier::rlimit(40)]
    fn draw_upper<P: Panel>(&self, panel: &mut P, hosts: &[HostEntry], status: &str, size: TextSize)
        requires
            old(panel).inv(),
            self.cols >= 16,
            self.rows >= 4,
            self.n == hosts@.len(),
            5 + (hosts@.len() + 1) * 3 + 3 <= u16::MAX,
            forall|i: int| 0 <= i < hosts@.len() ==> host_ok(self.cols as int, #[trigger] hosts@[i]),
        ensures
            appended(
                *old(panel),
                *final(panel),
                self.header_ops(old(panel).geo(), status@, size) + hosts_ops(old(panel).geo(), self.cols as int, hosts@, hosts@.len() as int)
                    + button_ops(old(panel).geo(), entry_rect_spec(self.cols as int, hosts@.len() as int), add_chars(), false),
            ),
    {
        let ghost g = panel.geo();
        let ghost start = panel.ops();
        let ghost cols = self.cols as int;
        self.draw_header(panel, status, size);
        self.draw_hosts(panel, hosts);
        let ghost p1 = self.header_ops(g, status@, size) + hosts_ops(g, cols, hosts@, hosts@.len() as int);
        assert(panel.ops() =~= start + p1);
        let ar = self.add_rect();
        let addl: [char; 15] = ['+', ' ', 'a', 'd', 'd', ' ', 'a', ' ', 'm', 'a', 'c', 'h', 'i', 'n', 'e'];
        assert(addl@ == add_chars());
        button_chars(panel, ar, &addl, false);
        assert(panel.ops() =~= start + (p1 + button_ops(g, entry_rect_spec(cols, hosts@.len() as int), add_chars(), false)));
    }

    #[verifier::rlimit(100)]
    pub fn draw<P: Panel>(&mut self, panel: &mut P, hosts: &[HostEntry], pubkey: &str, pair_url: &str, status: &str, size: TextSize)
        requires
            old(panel).inv(),
            old(self).draw_ok(old(panel).geo(), hosts@, pubkey@, pair_url@),
        ensures
            final(self).n == hosts@.len(),
            final(self).cols == old(self).cols,
            final(self).rows == old(self).rows,
            appended(*old(panel), *final(panel), old(self).draw_spec(old(panel).geo(), hosts@, pubkey@, pair_url@, status@, size)),
    {
        let ghost g = panel.geo();
        let ghost start = panel.ops();
        self.n = hosts.len();
        let ghost cols = self.cols as int;
        self.draw_upper(panel, hosts, status, size);
        let ghost p2 = self.header_ops(g, status@, size) + hosts_ops(g, cols, hosts@, hosts@.len() as int)
            + button_ops(g, entry_rect_spec(cols, hosts@.len() as int), add_chars(), false);
        self.draw_block(panel, hosts.len(), pubkey, pair_url);
        let ghost p3 = p2 + self.block_ops(g, hosts@.len() as int, pubkey@, pair_url@);
        assert(panel.ops() =~= start + p3);
        let qr = self.quit_rect();
        let ql: [char; 4] = ['Q', 'u', 'i', 't'];
        assert(ql@ == quit_chars());
        button_chars(panel, qr, &ql, false);
        let ghost p4 = p3 + button_ops(g, quit_rect_spec(cols, self.rows as int), quit_chars(), false);
        assert(panel.ops() =~= start + p4);
        let full = CellRect { col: 0, row: 0, cols: self.cols, rows: self.rows };
        panel.refresh(full, Waveform::Full);
        assert(panel.ops() =~= start + (p4 + seq![PanelOp::Refresh(full, Waveform::Full)]));
    }
}

fn curl_lines_len(lines: &Vec<Vec<char>>) -> (n: usize)
    ensures
        n == lines@.len(),
{
    lines.len()
}

fn extend(v: &mut Vec<char>, s: &[char])
    ensures
        final(v)@ == old(v)@ + s@,
{
    let ghost pre = v@;
    let mut i: usize = 0;
    while i < s.len()
        invariant
            i <= s@.len(),
            v@ == pre + s@.take(i as int),
        decreases s@.len() - i,
    {
        v.push(s[i]);
        assert(s@.take(i + 1) =~= s@.take(i as int).push(s@[i as int]));
        i = i + 1;
    }
    assert(s@.take(s@.len() as int) =~= s@);
}

/// Every piece of `chunks(s, w)` has at most `w` characters.
proof fn lemma_chunks_short(s: Seq<char>, w: int)
    requires
        w >= 1,
    ensures
        forall|k: int| 0 <= k < chunks(s, w).len() ==> (#[trigger] chunks(s, w)[k]).len() <= w,
    decreases s.len(),
{
    if s.len() > w {
        lemma_chunks_short(s.skip(w), w);
        assert forall|k: int| 0 <= k < chunks(s, w).len() implies (#[trigger] chunks(s, w)[k]).len() <= w by {
            if k > 0 {
                assert(chunks(s, w)[k] == chunks(s.skip(w), w)[k - 1]);
            }
        }
    }
}


#[derive(Clone, Copy, Debug, PartialEq, Eq, Structural)]
pub enum Field {
    Name,
    Spec,
    Command,
}

#[derive(Clone, Copy, Debug, PartialEq, Eq, Structural)]
pub enum FormAction {
    Save,
    Cancel,
    Focus(Field),
    Nothing,
}

/// Why a filled-in form is not a machine entry.
#[derive(Clone, Copy, Debug, PartialEq, Eq, Structural)]
pub enum FormError {
    /// The name is empty.
    NameRequired,
    /// The address has no `@`.
    AddressWithoutUser,
}

impl FormError {
    pub open spec fn message_spec(self) -> Seq<char> {
        match self {
            FormError::NameRequired => seq!['n','a','m','e',' ','i','s',' ','r','e','q','u','i','r','e','d'],
            FormError::AddressWithoutUser => seq!['a','d','d','r','e','s','s',' ','m','u','s','t',' ','b','e',' ','u','s','e','r','@','h','o','s','t'],
        }
    }

    /// The text shown under the form.
    pub fn message(&self) -> (s: String)
        ensures
            s@ == self.message_spec(),
    {
        match self {
            FormError::NameRequired => chars_to_string(&['n','a','m','e',' ','i','s',' ','r','e','q','u','i','r','e','d']),
            FormError::AddressWithoutUser => chars_to_string(&['a','d','d','r','e','s','s',' ','m','u','s','t',' ','b','e',' ','u','s','e','r','@','h','o','s','t']),
        }
    }
}

/// "Add a machine" form. Occupies the rows above the keyboard.
pub struct AddForm {
    pub cols: u16,
    pub name: String,
    pub spec: String,
    pub command: String,
    pub focus: Field,
    pub error: String,
}

/// The texts of a form and which one has focus.
pub struct FormModel {
    pub name: Seq<char>,
    pub spec: Seq<char>,
    pub command: Seq<char>,
    pub focus: Field,
}

/// The focused field without its last character.
pub open spec fn pop_focused(m: FormModel) -> FormModel {
    match m.focus {
        Field::Name => FormModel { name: if m.name.len() > 0 { m.name.drop_last() } else { m.name }, ..m },
        Field::Spec => FormModel { spec: if m.spec.len() > 0 { m.spec.drop_last() } else { m.spec }, ..m },
        Field::Command => FormModel { command: if m.command.len() > 0 { m.command.drop_last() } else { m.command }, ..m },
    }
}

/// The focused field with `c` appended.
pub open spec fn push_focused(m: FormModel, c: char) -> FormModel {
    match m.focus {
        Field::Name => FormModel { name: m.name.push(c), ..m },
        Field::Spec => FormModel { spec: m.spec.push(c), ..m },
        Field::Command => FormModel { command: m.command.push(c), ..m },
    }
}

/// One keyboard byte: Backspace/DEL erase, Enter and Tab advance (Enter on the
/// last field saves, Tab wraps), Esc cancels, printable bytes are typed.
pub open spec fn form_step(m: FormModel, b: u8) -> (FormModel, Option<FormAction>) {
    if b == 0x7f || b == 0x08 {
        (pop_focused(m), None)
    } else if b == 0x0d || b == 0x0a || b == 0x09 {
        match m.focus {
            Field::Name => (FormModel { focus: Field::Spec, ..m }, None),
            Field::Spec => (FormModel { focus: Field::Command, ..m }, None),
            Field::Command => if b == 0x09 {
                (FormModel { focus: Field::Name, ..m }, None)
            } else {
                (m, Some(FormAction::Save))
            },
        }
    } else if b == 0x1b {
        (m, Some(FormAction::Cancel))
    } else if b >= 0x20 {
        (push_focused(m, (b as u32) as char), None)
    } else {
        (m, None)
    }
}

/// Feeding `bytes` from the first: the form afterwards, and Save or Cancel if
/// a byte asked for it (the bytes after it are ignored), Nothing otherwise.
pub open spec fn form_input(m: FormModel, bytes: Seq<u8>) -> (FormModel, FormAction)
    decreases bytes.len(),
{
    if bytes.len() == 0 {
        (m, FormAction::Nothing)
    } else {
        let (m2, a) = form_step(m, bytes[0]);
        match a {
            Some(act) => (m2, act),
            None => form_input(m2, bytes.drop_first()),
        }
    }
}

pub open spec fn field_row(f: Field) -> int {
    match f {
        Field::Name => 3,
        Field::Spec => 8,
        Field::Command => 13,
    }
}

pub open spec fn field_rect_spec(cols: int, f: Field) -> CellRect {
    CellRect { col: 1, row: field_row(f) as u16, cols: (cols - 2) as u16, rows: 3 }
}

pub open spec fn save_rect_spec() -> CellRect {
    CellRect { col: 1, row: 18, cols: 12, rows: 3 }
}

pub open spec fn cancel_rect_spec() -> CellRect {
    CellRect { col: 15, row: 18, cols: 12, rows: 3 }
}

impl AddForm {
    pub open spec fn model(&self) -> FormModel {
        FormModel { name: self.name@, spec: self.spec@, command: self.command@, focus: self.focus }
    }

    /// What a tap at `(col, row)` means.
    pub open spec fn hit_spec(&self, col: int, row: int) -> FormAction {
        let cols = self.cols as int;
        if field_rect_spec(cols, Field::Name).has(col, row) {
            FormAction::Focus(Field::Name)
        } else if field_rect_spec(cols, Field::Spec).has(col, row) {
            FormAction::Focus(Field::Spec)
        } else if field_rect_spec(cols, Field::Command).has(col, row) {
            FormAction::Focus(Field::Command)
        } else if save_rect_spec().has(col, row) {
            FormAction::Save
        } else if cancel_rect_spec().has(col, row) {
            FormAction::Cancel
        } else {
            FormAction::Nothing
        }
    }

    pub fn new(cols: u16) -> (f: AddForm)
        ensures
            f.cols == cols,
            f.name@.len() == 0 && f.spec@.len() == 0 && f.command@.len() == 0 && f.error@.len() == 0,
            f.focus == Field::Name,
    {
        AddForm {
            cols,
            name: String::new(),
            spec: String::new(),
            command: String::new(),
            focus: Field::Name,
            error: String::new(),
        }
    }

    fn field_rect(&self, f: Field) -> (r: CellRect)
        requires
            self.cols >= 2,
        ensures
            r == field_rect_spec(self.cols as int, f),
    {
        let row: u16 = match f {
            Field::Name => 3,
            Field::Spec => 8,
            Field::Command => 13,
        };
        CellRect { col: 1, row, cols: self.cols - 2, rows: 3 }
    }

    fn save_rect(&self) -> (r: CellRect)
        ensures
            r == save_rect_spec(),
    {
        CellRect { col: 1, row: 18, cols: 12, rows: 3 }
    }

    fn cancel_rect(&self) -> (r: CellRect)
        ensures
            r == cancel_rect_spec(),
    {
        CellRect { col: 15, row: 18, cols: 12, rows: 3 }
    }

    pub fn hit(&self, col: u16, row: u16) -> (a: FormAction)
        requires
            self.cols >= 2,
        ensures
            a == self.hit_spec(col as int, row as int),
    {
        if self.field_rect(Field::Name).holds(col, row) {
            return FormAction::Focus(Field::Name);
        }
        if self.field_rect(Field::Spec).holds(col, row) {
            return FormAction::Focus(Field::Spec);
        }
        if self.field_rect(Field::Command).holds(col, row) {
            return FormAction::Focus(Field::Command);
        }
        if self.save_rect().holds(col, row) {
            return FormAction::Save;
        }
        if self.cancel_rect().holds(col, row) {
            return FormAction::Cancel;
        }
        FormAction::Nothing
    }

    fn pop_field(&mut self)
        ensures
            final(self).model() == pop_focused(old(self).model()),
            final(self).cols == old(self).cols,
            final(self).error == old(self).error,
    {
        match self.focus {
            Field::Name => {
                string_pop(&mut self.name);
            },
            Field::Spec => {
                string_pop(&mut self.spec);
            },
            Field::Command => {
                string_pop(&mut self.command);
            },
        }
    }

    fn push_field(&mut self, c: char)
        ensures
            final(self).model() == push_focused(old(self).model(), c),
            final(self).cols == old(self).cols,
            final(self).error == old(self).error,
    {
        match self.focus {
            Field::Name => string_push(&mut self.name, c),
            Field::Spec => string_push(&mut self.spec, c),
            Field::Command => string_push(&mut self.command, c),
        }
    }

    /// Feed keyboard bytes (from the OSK). Enter advances or saves; Tab advances.
    pub fn input(&mut self, bytes: &[u8]) -> (a: FormAction)
        ensures
            (final(self).model(), a) == form_input(old(self).model(), bytes@),
            final(self).cols == old(self).cols,
            final(self).error == old(self).error,
    {
        let ghost m0 = self.model();
        let mut i: usize = 0;
        assert(bytes@.skip(0) =~= bytes@);
        while i < bytes.len()
            invariant
                i <= bytes@.len(),
                m0 == old(self).model(),
                form_input(m0, bytes@) == form_input(self.model(), bytes@.skip(i as int)),
                self.cols == old(self).cols,
                self.error == old(self).error,
            decreases bytes@.len() - i,
        {
            let b = bytes[i];
            let ghost m = self.model();
            assert(bytes@.skip(i as int)[0] == b);
            assert(bytes@.skip(i as int).drop_first() =~= bytes@.skip(i + 1));
            if b == 0x7f || b == 0x08 {
                self.pop_field();
            } else if b == 0x0d || b == 0x0a || b == 0x09 {
                match self.focus {
                    Field::Name => self.focus = Field::Spec,
                    Field::Spec => self.focus = Field::Command,
                    Field::Command => {
                        if b == 0x09 {
                            self.focus = Field::Name;
                        } else {
                            assert(form_step(m, b) == (m, Some(FormAction::Save)));
                            assert(form_input(m, bytes@.skip(i as int)) == (m, FormAction::Save));
                            return FormAction::Save;
                        }
                    },
                }
            } else if b == 0x1b {
                assert(form_step(m, b) == (m, Some(FormAction::Cancel)));
                assert(form_input(m, bytes@.skip(i as int)) == (m, FormAction::Cancel));
                return FormAction::Cancel;
            } else if b >= 0x20 {
                self.push_field(b as char);
                assert((b as char) == ((b as u32) as char));
            }
            assert(self.model() == form_step(m, b).0);
            i = i + 1;
        }
        assert(bytes@.skip(i as int) =~= Seq::<u8>::empty());
        FormAction::Nothing
    }

    /// The machine the form describes: name and address trimmed, the command
    /// trimmed and dropped when empty.
    pub fn entry(&self) -> (r: Result<HostEntry, FormError>)
        ensures
            trim(self.name@).len() == 0 ==> r == Err::<HostEntry, FormError>(FormError::NameRequired),
            trim(self.name@).len() > 0 && !trim(self.spec@).contains('@') ==> r == Err::<HostEntry, FormError>(FormError::AddressWithoutUser),
            trim(self.name@).len() > 0 && trim(self.spec@).contains('@') ==> (r matches Ok(e) && e.name@ == trim(self.name@)
                && e.spec@ == trim(self.spec@) && (if trim(self.command@).len() == 0 { e.command is None } else { (e.command matches Some(c) && c@ == trim(self.command@)) })),
    {
        let nv = str_chars(self.name.as_str());
        let name = trim_chars(nv.as_slice());
        let sv = str_chars(self.spec.as_str());
        let spec = trim_chars(sv.as_slice());
        if name.len() == 0 {
            return Err(FormError::NameRequired);
        }
        if !chars_contain(spec.as_slice(), '@') {
            return Err(FormError::AddressWithoutUser);
        }
        let cv = str_chars(self.command.as_str());
        let cmd = trim_chars(cv.as_slice());
        let command = if cmd.len() == 0 { None } else { Some(chars_to_string(cmd.as_slice())) };
        Ok(HostEntry { name: chars_to_string(name.as_slice()), spec: chars_to_string(spec.as_slice()), command })
    }
}


pub open spec fn field_label(f: Field) -> Seq<char> {
    match f {
        Field::Name => seq!['N','a','m','e',' ','(','e','.','g','.',' ','M','a','c','B','o','o','k',' ','P','r','o',')'],
        Field::Spec => seq!['A','d','d','r','e','s','s',':',' ','u','s','e','r','@','h','o','s','t','[',':','p','o','r','t',']'],
        Field::Command => seq!['C','o','m','m','a','n','d',' ','(','o','p','t','i','o','n','a','l',',',' ','e','.','g','.',' ','t','m','u','x',' ','n','e','w',' ','-','A',' ','-','s',' ','k','o','b','o',')'],
    }
}

pub open spec fn add_title() -> Seq<char> {
    seq!['A','d','d',' ','a',' ','m','a','c','h','i','n','e']
}

/// The last `k` characters of `v` (all of them if it is shorter).
pub open spec fn tail_chars(v: Seq<char>, k: int) -> Seq<char> {
    if v.len() > k { v.skip(v.len() - k) } else { v }
}

impl AddForm {
    pub open spec fn value_of(&self, f: Field) -> Seq<char> {
        match f {
            Field::Name => self.name@,
            Field::Spec => self.spec@,
            Field::Command => self.command@,
        }
    }

    /// The requests drawing field `f` makes: label above, frame, the tail of the
    /// value that fits, and a cursor after it when focused.
    pub open spec fn field_ops(&self, g: Geometry, f: Field) -> Seq<PanelOp> {
        let r = field_rect_spec(self.cols as int, f);
        let focused = self.focus == f;
        let shown = tail_chars(self.value_of(f), r.cols - 4);
        text_ops(g, r.col as int, r.row - 1, field_label(f), focused, false) + frame_ops(g, r, focused)
            + text_ops(g, r.col + 2, r.row + 1, shown, false, false)
            + if focused { put_ops(g, r.col + 2 + shown.len(), r.row + 1, '_', true, false) } else { seq![] }
    }

    pub open spec fn draw_spec(&self, g: Geometry, rows_available: u16) -> Seq<PanelOp> {
        let area = CellRect { col: 0, row: 0, cols: self.cols, rows: rows_available };
        fill_ops(g, area, ' ', false) + text_ops(g, 1, 1, add_title(), true, false) + self.field_ops(g, Field::Name)
            + self.field_ops(g, Field::Spec) + self.field_ops(g, Field::Command)
            + button_ops(g, save_rect_spec(), seq!['S', 'a', 'v', 'e'], false)
            + button_ops(g, cancel_rect_spec(), seq!['C', 'a', 'n', 'c', 'e', 'l'], false)
            + text_ops(g, 1, 22, self.error@, true, false) + seq![PanelOp::Refresh(area, Waveform::Partial)]
    }

    /// The last `k` characters of field `f`'s value.
    fn value_tail(&self, f: Field, k: usize) -> (shown: Vec<char>)
        ensures
            shown@ == tail_chars(self.value_of(f), k as int),
    {
        let v = match f {
            Field::Name => str_chars(self.name.as_str()),
            Field::Spec => str_chars(self.spec.as_str()),
            Field::Command => str_chars(self.command.as_str()),
        };
        let from: usize = if v.len() > k { v.len() - k } else { 0 };
        let mut shown: Vec<char> = Vec::new();
        let mut i = from;
        while i < v.len()
            invariant
                from <= i <= v@.len(),
                shown@ == v@.subrange(from as int, i as int),
            decreases v@.len() - i,
        {
            shown.push(v[i]);
            assert(v@.subrange(from as int, i + 1) =~= v@.subrange(from as int, i as int).push(v@[i as int]));
            i = i + 1;
        }
        assert(shown@ =~= tail_chars(v@, k as int));
        shown
    }

    #[verifier::rlimit(100)]
    fn draw_field<P: Panel>(&self, panel: &mut P, f: Field, label: &[char])
        requires
            old(panel).inv(),
            self.cols >= 6,
            label@ == field_label(f),
        ensures
            appended(*old(panel), *final(panel), self.field_ops(old(panel).geo(), f)),
    {
        let ghost g = panel.geo();
        let ghost start = panel.ops();
        let r = self.field_rect(f);
        let focused = self.focus == f;
        text_chars(panel, r.col, r.row - 1, label, focused, false);
        frame(panel, r, focused);
        let ghost mid = panel.ops();
        let k: usize = (r.cols - 4) as usize;
        let shown = self.value_tail(f, k);
        text_chars(panel, r.col + 2, r.row + 1, shown.as_slice(), false, false);
        if focused {
            put(panel, r.col + 2 + shown.len() as u16, r.row + 1, '_', true, false);
        }
        assert(mid =~= start + text_ops(g, r.col as int, r.row - 1, field_label(f), focused, false) + frame_ops(g, r, focused));
        assert(panel.ops() =~= start + self.field_ops(g, f));
    }

    #[verifier::rlimit(100)]
    pub fn draw<P: Panel>(&self, panel: &mut P, rows_available: u16)
        requires
            old(panel).inv(),
            self.cols >= 6,
            rect_in(CellRect { col: 0, row: 0, cols: self.cols, rows: rows_available }, old(panel).geo()),
            1 + self.error@.len() <= u16::MAX + 1,
        ensures
            appended(*old(panel), *final(panel), self.draw_spec(old(panel).geo(), rows_available)),
    {
        let ghost g = panel.geo();
        let ghost start = panel.ops();
        let area = CellRect { col: 0, row: 0, cols: self.cols, rows: rows_available };
        fill(panel, area, ' ', false);
        let title: [char; 13] = ['A','d','d',' ','a',' ','m','a','c','h','i','n','e'];
        assert(title@ == add_title());
        text_chars(panel, 1, 1, &title, true, false);
        let ghost p1 = fill_ops(g, area, ' ', false) + text_ops(g, 1, 1, add_title(), true, false);
        assert(panel.ops() =~= start + p1);
        let l1: [char; 23] = ['N','a','m','e',' ','(','e','.','g','.',' ','M','a','c','B','o','o','k',' ','P','r','o',')'];
        assert(l1@ == field_label(Field::Name));
        self.draw_field(panel, Field::Name, &l1);
        let l2: [char; 25] = ['A','d','d','r','e','s','s',':',' ','u','s','e','r','@','h','o','s','t','[',':','p','o','r','t',']'];
        assert(l2@ == field_label(Field::Spec));
        self.draw_field(panel, Field::Spec, &l2);
        let l3: [char; 44] = ['C','o','m','m','a','n','d',' ','(','o','p','t','i','o','n','a','l',',',' ','e','.','g','.',' ','t','m','u','x',' ','n','e','w',' ','-','A',' ','-','s',' ','k','o','b','o',')'];
        assert(l3@ == field_label(Field::Command));
        self.draw_field(panel, Field::Command, &l3);
        let ghost p2 = p1 + self.field_ops(g, Field::Name) + self.field_ops(g, Field::Spec) + self.field_ops(g, Field::Command);
        assert(panel.ops() =~= start + p2);
        let sv: [char; 4] = ['S', 'a', 'v', 'e'];
        let cv: [char; 6] = ['C', 'a', 'n', 'c', 'e', 'l'];
        assert(sv@ == seq!['S', 'a', 'v', 'e']);
        assert(cv@ == seq!['C', 'a', 'n', 'c', 'e', 'l']);
        button_chars(panel, self.save_rect(), &sv, false);
        button_chars(panel, self.cancel_rect(), &cv, false);
        let ghost p3 = p2 + button_ops(g, save_rect_spec(), seq!['S', 'a', 'v', 'e'], false)
            + button_ops(g, cancel_rect_spec(), seq!['C', 'a', 'n', 'c', 'e', 'l'], false);
        assert(panel.ops() =~= start + p3);
        let ev = str_chars(self.error.as_str());
        text_chars(panel, 1, 22, ev.as_slice(), true, false);
        panel.refresh(area, Waveform::Partial);
        assert(panel.ops() =~= start + (p3 + text_ops(g, 1, 22, self.error@, true, false) + seq![PanelOp::Refresh(area, Waveform::Partial)]));
    }
}

/// Every byte of `bs` is a printable ASCII character (space to `~`).
pub open spec fn printable(bs: Seq<u8>) -> bool {
    forall|i: int| 0 <= i < bs.len() ==> 0x20 <= #[trigger] bs[i] < 0x7f
}

/// The characters the bytes `bs` stand for, one per byte.
pub open spec fn typed(bs: Seq<u8>) -> Seq<char> {
    Seq::new(bs.len(), |i: int| (bs[i] as u32) as char)
}

/// Law: typing printable characters adds them, in order, to the end of the
/// field in focus and touches nothing else; no Save or Cancel comes of it.
pub proof fn lemma_typing_fills_focused(m: FormModel, bs: Seq<u8>)
    requires
        printable(bs),
    ensures
        form_input(m, bs).1 == FormAction::Nothing,
        form_input(m, bs).0.focus == m.focus,
        form_input(m, bs).0.name == (if m.focus == Field::Name { m.name + typed(bs) } else { m.name }),
        form_input(m, bs).0.spec == (if m.focus == Field::Spec { m.spec + typed(bs) } else { m.spec }),
        form_input(m, bs).0.command == (if m.focus == Field::Command { m.command + typed(bs) } else { m.command }),
    decreases bs.len(),
{
    if bs.len() == 0 {
        assert(m.name + typed(bs) =~= m.name);
        assert(m.spec + typed(bs) =~= m.spec);
        assert(m.command + typed(bs) =~= m.command);
    } else {
        let rest = bs.drop_first();
        assert(0x20 <= bs[0] < 0x7f);
        assert forall|i: int| 0 <= i < rest.len() implies 0x20 <= #[trigger] rest[i] < 0x7f by {
            assert(rest[i] == bs[i + 1]);
        }
        let c = (bs[0] as u32) as char;
        let m1 = push_focused(m, c);
        assert(form_step(m, bs[0]) == (m1, None::<FormAction>));
        lemma_typing_fills_focused(m1, rest);
        assert(typed(bs) =~= seq![c] + typed(rest));
        assert(m.name.push(c) + typed(rest) =~= m.name + typed(bs));
        assert(m.spec.push(c) + typed(rest) =~= m.spec + typed(bs));
        assert(m.command.push(c) + typed(rest) =~= m.command + typed(bs));
    }
}

/// Feeding `a` then `b` is feeding `a + b`, when `a` neither saves nor
/// cancels.
proof fn lemma_form_input_concat(m: FormModel, a: Seq<u8>, b: Seq<u8>)
    requires
        form_input(m, a).1 == FormAction::Nothing,
    ensures
        form_input(m, a + b) == form_input(form_input(m, a).0, b),
    decreases a.len(),
{
    if a.len() == 0 {
        assert(a + b =~= b);
    } else {
        assert((a + b)[0] == a[0]);
        assert((a + b).drop_first() =~= a.drop_first() + b);
        let (m2, act) = form_step(m, a[0]);
        if act is None {
            lemma_form_input_concat(m2, a.drop_first(), b);
        }
    }
}

/// Law: Tab moves the focus to the next field (Name, then Spec, then
/// Command, then back to Name) and leaves every field as it is; it never saves
/// or cancels.
pub proof fn lemma_tab_advances(m: FormModel)
    ensures
        form_input(m, seq![0x09u8]).1 == FormAction::Nothing,
        form_input(m, seq![0x09u8]).0.name == m.name,
        form_input(m, seq![0x09u8]).0.spec == m.spec,
        form_input(m, seq![0x09u8]).0.command == m.command,
        m.focus == Field::Name ==> form_input(m, seq![0x09u8]).0.focus == Field::Spec,
        m.focus == Field::Spec ==> form_input(m, seq![0x09u8]).0.focus == Field::Command,
        m.focus == Field::Command ==> form_input(m, seq![0x09u8]).0.focus == Field::Name,
{
    let t = seq![0x09u8];
    assert(t[0] == 0x09u8);
    assert(t.drop_first() =~= Seq::<u8>::empty());
    reveal_with_fuel(form_input, 2);
}

/// Law: on a form with the name in focus, typing a name, Tab and an address
/// fills the name and the address with exactly what was typed, leaves the
/// command as it was and the address in focus.
pub proof fn lemma_name_tab_address(m: FormModel, name: Seq<u8>, addr: Seq<u8>)
    requires
        m.focus == Field::Name,
        printable(name),
        printable(addr),
    ensures
        form_input(m, name + seq![0x09u8] + addr) == (FormModel {
            name: m.name + typed(name),
            spec: m.spec + typed(addr),
            command: m.command,
            focus: Field::Spec,
        }, FormAction::Nothing),
{
    lemma_typing_fills_focused(m, name);
    let m1 = form_input(m, name).0;
    lemma_tab_advances(m1);
    let m2 = form_input(m1, seq![0x09u8]).0;
    lemma_typing_fills_focused(m2, addr);
    lemma_form_input_concat(m, name, seq![0x09u8]);
    lemma_form_input_concat(m, name + seq![0x09u8], addr);
}

/// Law: Enter moves on from the name to the address and from the address to
/// the command, and on the command asks to save; Esc asks to cancel; Backspace
/// drops the last character of the field in focus. None of them changes
/// another field, and only Enter moves the focus.
pub proof fn lemma_form_keys(m: FormModel)
    ensures
        m.focus == Field::Name ==> form_input(m, seq![0x0du8]) == (FormModel { focus: Field::Spec, ..m }, FormAction::Nothing),
        m.focus == Field::Spec ==> form_input(m, seq![0x0du8]) == (FormModel { focus: Field::Command, ..m }, FormAction::Nothing),
        m.focus == Field::Command ==> form_input(m, seq![0x0du8]) == (m, FormAction::Save),
        form_input(m, seq![0x1bu8]) == (m, FormAction::Cancel),
        form_input(m, seq![0x7fu8]).1 == FormAction::Nothing,
        form_input(m, seq![0x7fu8]).0.focus == m.focus,
        form_input(m, seq![0x7fu8]).0.name == (if m.focus == Field::Name && m.name.len() > 0 { m.name.take(m.name.len() - 1) } else { m.name }),
        form_input(m, seq![0x7fu8]).0.spec == (if m.focus == Field::Spec && m.spec.len() > 0 { m.spec.take(m.spec.len() - 1) } else { m.spec }),
        form_input(m, seq![0x7fu8]).0.command == (if m.focus == Field::Command && m.command.len() > 0 { m.command.take(m.command.len() - 1) } else { m.command }),
{
    reveal_with_fuel(form_input, 2);
    let e = seq![0x0du8];
    let x = seq![0x1bu8];
    let d = seq![0x7fu8];
    assert(e[0] == 0x0du8 && x[0] == 0x1bu8 && d[0] == 0x7fu8);
    assert(e.drop_first() =~= Seq::<u8>::empty());
    assert(x.drop_first() =~= Seq::<u8>::empty());
    assert(d.drop_first() =~= Seq::<u8>::empty());
    if m.name.len() > 0 {
        assert(m.name.drop_last() =~= m.name.take(m.name.len() - 1));
    }
    if m.spec.len() > 0 {
        assert(m.spec.drop_last() =~= m.spec.take(m.spec.len() - 1));
    }
    if m.command.len() > 0 {
        assert(m.command.drop_last() =~= m.command.take(m.command.len() - 1));
    }
}

} // verus!
