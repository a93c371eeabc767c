//! Input lists: an argument `@file` names a listing whose lines are paths,
//! further `@file` references, comments (`#`) or blank; listed paths that do
//! not exist are dropped when they have no extension and refused otherwise.
//! Paths are handled with `/` as the separator. Expanding the arguments is a
//! step function: it asks for a path to be resolved or a listing to be read,
//! and is told what came back.
use vstd::prelude::*;
use crate::text::{concat2, find_last_char, substring, views};

verus! {

/// Unicode white space, as `char::is_whitespace` has it.
pub open spec fn is_white(c: char) -> bool {
    let x = c as u32;
    (9 <= x <= 13) || x == 32 || x == 0x85 || x == 0xa0 || x == 0x1680 || (0x2000 <= x <= 0x200a) || x == 0x2028
        || x == 0x2029 || x == 0x202f || x == 0x205f || x == 0x3000
}

/// Whether a character is white space.
pub fn is_white_char(c: char) -> (res: bool)
    ensures
        res == is_white(c),
{
    let x = c as u32;
    (9 <= x && x <= 13) || x == 32 || x == 0x85 || x == 0xa0 || x == 0x1680 || (0x2000 <= x && x <= 0x200a) || x
        == 0x2028 || x == 0x2029 || x == 0x202f || x == 0x205f || x == 0x3000
}

/// `s` without its leading and trailing white space.
pub open spec fn trim_spec(s: Seq<char>) -> Seq<char>
    decreases s.len(),
{
    if s.len() > 0 && is_white(s[0]) {
        trim_spec(s.drop_first())
    } else if s.len() > 0 && is_white(s.last()) {
        trim_spec(s.drop_last())
    } else {
        s
    }
}

/// `s` without its leading and trailing white space.
pub fn trim(s: &str) -> (res: String)
    ensures
        res@ == trim_spec(s@),
{
    let n = s.unicode_len();
    let mut a: usize = 0;
    proof {
        assert(s@.subrange(0, n as int) =~= s@);
    }
    while a < n && is_white_char(s.get_char(a))
        invariant
            n == s@.len(),
            a <= n,
            trim_spec(s@) == trim_spec(s@.subrange(a as int, n as int)),
        decreases n - a,
    {
        proof {
            let t = s@.subrange(a as int, n as int);
            assert(t.drop_first() =~= s@.subrange(a + 1, n as int));
        }
        a = a + 1;
    }
    let mut b: usize = n;
    while b > a && is_white_char(s.get_char(b - 1))
        invariant
            n == s@.len(),
            a <= b <= n,
            a < n ==> !is_white(s@[a as int]),
            trim_spec(s@) == trim_spec(s@.subrange(a as int, b as int)),
        decreases b - a,
    {
        proof {
            let t = s@.subrange(a as int, b as int);
            assert(t[0] == s@[a as int]);
            assert(t.drop_last() =~= s@.subrange(a as int, b - 1));
        }
        b = b - 1;
    }
    proof {
        let t = s@.subrange(a as int, b as int);
        if a < b {
            assert(t[0] == s@[a as int]);
            assert(t.last() == s@[b - 1]);
        }
    }
    substring(s, a, b)
}

/// What a line of a listing is.
#[derive(Clone, Debug, PartialEq, Eq)]
pub enum ListingLine {
    /// Blank or a `#` comment.
    Skip,
    /// A further `@file` reference (the whole trimmed line).
    Nested(String),
    /// A path (the trimmed line).
    Entry(String),
}

/// Reads one line of a listing: trimmed, it is skipped when blank or a `#`
/// comment, a further reference when it starts with `@`, else a path.
pub fn classify_listing_line(line: &str) -> (res: ListingLine)
    ensures
        ({
            let t = trim_spec(line@);
            match res {
                ListingLine::Skip => t.len() == 0 || t[0] == '#',
                ListingLine::Nested(x) => t.len() > 0 && t[0] == '@' && x@ == t,
                ListingLine::Entry(x) => t.len() > 0 && t[0] != '#' && t[0] != '@' && x@ == t,
            }
        }),
{
    let t = trim(line);
    if t.unicode_len() == 0 {
        return ListingLine::Skip;
    }
    let first = t.as_str().get_char(0);
    if first == '#' {
        ListingLine::Skip
    } else if first == '@' {
        ListingLine::Nested(t)
    } else {
        ListingLine::Entry(t)
    }
}

/// Why the input arguments cannot be expanded.
#[derive(Clone, Debug, PartialEq, Eq)]
pub enum InputError {
    /// `@` alone.
    EmptyReference,
    /// A listing that is already being read is referred to again.
    Circular(String),
    /// A path could not be resolved or a listing could not be read.
    Unreadable(String),
    /// A path with an extension does not exist.
    NotFound(String),
}

/// `entry` taken relative to `dir`: an absolute entry stands alone, an empty
/// directory adds nothing, and otherwise the two are joined by one `/`.
pub open spec fn join_spec(dir: Seq<char>, entry: Seq<char>) -> Seq<char> {
    if (entry.len() > 0 && entry[0] == '/') || dir.len() == 0 {
        entry
    } else if dir.last() == '/' {
        dir + entry
    } else {
        dir + seq!['/'] + entry
    }
}

/// Joins `entry` to `dir`.
pub fn join_path(dir: &str, entry: &str) -> (res: String)
    ensures
        res@ == join_spec(dir@, entry@),
{
    let n = dir.unicode_len();
    if (entry.unicode_len() > 0 && entry.get_char(0) == '/') || n == 0 {
        return entry.to_owned();
    }
    if dir.get_char(n - 1) == '/' {
        concat2(dir, entry)
    } else {
        proof {
            reveal_strlit("/");
        }
        let with_sep = concat2(dir, "/");
        concat2(with_sep.as_str(), entry)
    }
}

/// The directory of a path: the text before its last `/` (`/` itself when
/// that is the first character), empty when it has none.
pub open spec fn parent_spec(path: Seq<char>) -> Seq<char> {
    if exists|k: int| 0 <= k < path.len() && path[k] == '/' {
        let k = choose|k: int| 0 <= k < path.len() && path[k] == '/' && forall|j: int| k < j < path.len() ==> path[j] != '/';
        if k == 0 {
            seq!['/']
        } else {
            path.subrange(0, k)
        }
    } else {
        Seq::empty()
    }
}

/// The directory of a path.
pub fn parent_path(path: &str) -> (res: String)
    ensures
        res@ == parent_spec(path@),
{
    proof {
        reveal_strlit("/");
        reveal_strlit("");
    }
    match find_last_char(path, '/') {
        Some(k) => {
            proof {
                let w = choose|w: int| 0 <= w < path@.len() && path@[w] == '/' && forall|j: int| w < j < path@.len() ==> path@[j] != '/';
                assert(w == k as int);
            }
            if k == 0 {
                "/".to_owned()
            } else {
                substring(path, 0, k)
            }
        },
        None => "".to_owned(),
    }
}

/// The last component of a path is `..`.
pub open spec fn ends_in_dot_dot(p: Seq<char>) -> bool {
    p.len() >= 2 && p[p.len() - 1] == '.' && p[p.len() - 2] == '.' && (p.len() == 2 || p[p.len() - 3] == '/')
}

/// The last component of a path has an extension: a `.` in it that is not
/// its first character, and the component is not `..`.
pub open spec fn has_extension_spec(p: Seq<char>) -> bool {
    &&& exists|i: int| 0 < i < p.len() && #[trigger] p[i] == '.' && p[i - 1] != '/' && forall|j: int| i < j < p.len() ==> p[j] != '/'
    &&& !ends_in_dot_dot(p)
}

/// Whether the last component of a path has an extension.
pub fn has_extension(path: &str) -> (res: bool)
    ensures
        res == has_extension_spec(path@),
{
    let n = path.unicode_len();
    let dot_dot = n >= 2 && path.get_char(n - 1) == '.' && path.get_char(n - 2) == '.' && (n == 2 || path.get_char(n - 3) == '/');
    let mut i: usize = n;
    while i >= 2
        invariant
            n == path@.len(),
            i <= n,
            dot_dot == ends_in_dot_dot(path@),
            forall|j: int| i <= j < n ==> path@[j] != '/',
            forall|j: int| i <= j < n && j > 0 ==> !(#[trigger] path@[j] == '.' && path@[j - 1] != '/'),
        decreases i,
    {
        let c = path.get_char(i - 1);
        if c == '/' {
            proof {
                assert forall|k: int| 0 < k < path@.len() && #[trigger] path@[k] == '.' && path@[k - 1] != '/' implies !(forall|j: int| k < j < path@.len() ==> path@[j] != '/') by {
                    assert(k < i - 1);
                    assert(path@[i - 1] == '/');
                }
            }
            return false;
        }
        if c == '.' && path.get_char(i - 2) != '/' {
            proof {
                let k = i - 1;
                assert(path@[k as int] == '.' && path@[k - 1] != '/');
                assert(forall|j: int| k < j < path@.len() ==> path@[j] != '/');
                assert(dot_dot == ends_in_dot_dot(path@));
            }
            return !dot_dot;
        }
        i = i - 1;
    }
    proof {
        assert forall|k: int| 0 < k < path@.len() && #[trigger] path@[k] == '.' implies !(path@[k - 1] != '/' && forall|j: int| k < j < path@.len() ==> path@[j] != '/') by {
            assert(k >= i - 1);
        }
    }
    false
}

/// Where the line starting at `i` ends: the next `\n`, or the end.
pub open spec fn line_end(s: Seq<char>, i: int) -> int
    decreases s.len() - i,
{
    if i < 0 || i >= s.len() || s[i] == '\n' {
        i
    } else {
        line_end(s, i + 1)
    }
}

/// A line ends at or after its start, and within the text.
pub proof fn lemma_line_end(s: Seq<char>, i: int)
    requires
        0 <= i <= s.len(),
    ensures
        i <= line_end(s, i) <= s.len(),
        line_end(s, i) < s.len() ==> s[line_end(s, i)] == '\n',
        forall|j: int| i <= j < line_end(s, i) ==> s[j] != '\n',
    decreases s.len() - i,
{
    if i < s.len() && s[i] != '\n' {
        lemma_line_end(s, i + 1);
    }
}

/// The lines of `s` from `i` on, split at each `\n` (none after a final `\n`).
pub open spec fn lines_from(s: Seq<char>, i: int) -> Seq<Seq<char>>
    decreases s.len() + 1 - i,
    via lines_from_decreases
{
    if i < 0 || i >= s.len() {
        Seq::empty()
    } else {
        seq![s.subrange(i, line_end(s, i))] + lines_from(s, line_end(s, i) + 1)
    }
}

#[via_fn]
proof fn lines_from_decreases(s: Seq<char>, i: int) {
    if 0 <= i < s.len() {
        lemma_line_end(s, i);
    }
}

/// An entry of a listing: a path, or a further `@file` reference (the whole
/// trimmed line, `@` included).
#[derive(Clone, Debug, PartialEq, Eq)]
pub enum ListingItem {
    Path(String),
    Reference(String),
}

/// A listing entry as plain values.
pub enum ListingItemView {
    Path(Seq<char>),
    Reference(Seq<char>),
}

impl View for ListingItem {
    type V = ListingItemView;

    open spec fn view(&self) -> ListingItemView {
        match self {
            ListingItem::Path(p) => ListingItemView::Path(p@),
            ListingItem::Reference(r) => ListingItemView::Reference(r@),
        }
    }
}

/// The views of listing entries.
pub open spec fn item_views(v: Seq<ListingItem>) -> Seq<ListingItemView> {
    v.map_values(|x: ListingItem| x@)
}

/// The entry a line gives: none for a blank line or a `#` comment, a
/// reference for a line starting with `@`, else the path joined to `dir`.
pub open spec fn line_item(line: Seq<char>, dir: Seq<char>) -> Option<ListingItemView> {
    let t = trim_spec(line);
    if t.len() == 0 || t[0] == '#' {
        None
    } else if t[0] == '@' {
        Some(ListingItemView::Reference(t))
    } else {
        Some(ListingItemView::Path(join_spec(dir, t)))
    }
}

/// The entries of some lines, in order.
pub open spec fn items_of_lines(lines: Seq<Seq<char>>, dir: Seq<char>) -> Seq<ListingItemView>
    decreases lines.len(),
{
    if lines.len() == 0 {
        Seq::empty()
    } else {
        items_of_lines(lines.drop_last(), dir) + match line_item(lines.last(), dir) {
            Some(x) => seq![x],
            None => Seq::empty(),
        }
    }
}

/// The entries of a listing read from a file in `dir`.
pub open spec fn listing_items_spec(content: Seq<char>, dir: Seq<char>) -> Seq<ListingItemView> {
    items_of_lines(lines_from(content, 0), dir)
}

/// The lines of a text.
pub fn split_lines(content: &str) -> (res: Vec<String>)
    ensures
        views(res@) == lines_from(content@, 0),
{
    let n = content.unicode_len();
    let mut lines: Vec<String> = Vec::new();
    let mut i: usize = 0;
    proof {
        assert(views(lines@) + lines_from(content@, 0) =~= lines_from(content@, 0));
    }
    while i < n
        invariant
            n == content@.len(),
            i <= n,
            views(lines@) + lines_from(content@, i as int) == lines_from(content@, 0),
        decreases n - i,
    {
        let mut e = i;
        proof {
            lemma_line_end(content@, i as int);
        }
        while e < n && content.get_char(e) != '\n'
            invariant
                n == content@.len(),
                i <= e <= n,
                line_end(content@, e as int) == line_end(content@, i as int),
            decreases n - e,
        {
            e = e + 1;
        }
        let ghost before = views(lines@);
        lines.push(substring(content, i, e));
        proof {
            assert(views(lines@) =~= before.push(content@.subrange(i as int, e as int)));
            assert(lines_from(content@, i as int) == seq![content@.subrange(i as int, e as int)] + lines_from(content@, e + 1));
            assert(before + lines_from(content@, i as int) =~= views(lines@) + lines_from(content@, e + 1));
        }
        i = if e < n { e + 1 } else { e };
    }
    proof {
        assert(views(lines@) + lines_from(content@, i as int) =~= views(lines@));
    }
    lines
}

/// The entries of a listing read from a file in `file_dir`: blank lines and
/// `#` comments skipped, paths joined to `file_dir`, references kept.
pub fn listing_entries(content: &str, file_dir: &str) -> (res: Vec<ListingItem>)
    ensures
        item_views(res@) == listing_items_spec(content@, file_dir@),
{
    let lines = split_lines(content);
    let ghost ls = lines_from(content@, 0);
    let mut items: Vec<ListingItem> = Vec::new();
    let mut k: usize = 0;
    proof {
        assert(ls.take(0) =~= Seq::<Seq<char>>::empty());
        assert(item_views(items@) =~= Seq::<ListingItemView>::empty());
    }
    while k < lines.len()
        invariant
            k <= lines@.len(),
            views(lines@) == ls,
            item_views(items@) == items_of_lines(ls.take(k as int), file_dir@),
        decreases lines.len() - k,
    {
        let ghost before = item_views(items@);
        proof {
            assert(ls.take(k + 1).drop_last() =~= ls.take(k as int));
            assert(ls.take(k + 1).last() == lines@[k as int]@);
        }
        match classify_listing_line(lines[k].as_str()) {
            ListingLine::Skip => {
                assert(item_views(items@) =~= before + Seq::<ListingItemView>::empty());
            },
            ListingLine::Nested(r) => {
                items.push(ListingItem::Reference(r));
                assert(item_views(items@) =~= before + seq![items@[items@.len() - 1]@]);
            },
            ListingLine::Entry(e) => {
                let joined = join_path(file_dir, e.as_str());
                items.push(ListingItem::Path(joined));
                assert(item_views(items@) =~= before + seq![items@[items@.len() - 1]@]);
            },
        }
        k = k + 1;
    }
    proof {
        assert(ls.take(k as int) =~= ls);
    }
    items
}

/// What stops the expansion, as plain values.
pub enum InputErrorView {
    EmptyReference,
    Circular(Seq<char>),
    Unreadable(Seq<char>),
    NotFound(Seq<char>),
}

impl View for InputError {
    type V = InputErrorView;

    open spec fn view(&self) -> InputErrorView {
        match self {
            InputError::EmptyReference => InputErrorView::EmptyReference,
            InputError::Circular(p) => InputErrorView::Circular(p@),
            InputError::Unreadable(p) => InputErrorView::Unreadable(p@),
            InputError::NotFound(p) => InputErrorView::NotFound(p@),
        }
    }
}

/// A listing being read: its canonical path, its directory, its entries and
/// the next one to take.
pub struct Frame {
    pub canonical: String,
    pub dir: String,
    pub items: Vec<ListingItem>,
    pub next: usize,
}

/// A listing being read, as plain values.
pub struct FrameView {
    pub canonical: Seq<char>,
    pub dir: Seq<char>,
    pub items: Seq<ListingItemView>,
    pub next: int,
}

impl View for Frame {
    type V = FrameView;

    open spec fn view(&self) -> FrameView {
        FrameView { canonical: self.canonical@, dir: self.dir@, items: item_views(self.items@), next: self.next as int }
    }
}

/// The views of the listings being read.
pub open spec fn frame_views(v: Seq<Frame>) -> Seq<FrameView> {
    v.map_values(|f: Frame| f@)
}

/// The expansion of the input arguments: the directory they are relative
/// to, the arguments and the next one, the listings being read (innermost
/// last), the paths found so far, and the listing whose contents are awaited.
pub struct ExpandState {
    pub base_dir: String,
    pub args: Vec<String>,
    pub next_arg: usize,
    pub frames: Vec<Frame>,
    pub out: Vec<String>,
    pub reading: Option<String>,
}

/// The expansion state as plain values.
#[verifier::ext_equal]
pub struct ExpandStateView {
    pub base_dir: Seq<char>,
    pub args: Seq<Seq<char>>,
    pub next_arg: int,
    pub frames: Seq<FrameView>,
    pub out: Seq<Seq<char>>,
    pub reading: Option<Seq<char>>,
}

impl View for ExpandState {
    type V = ExpandStateView;

    open spec fn view(&self) -> ExpandStateView {
        ExpandStateView {
            base_dir: self.base_dir@,
            args: views(self.args@),
            next_arg: self.next_arg as int,
            frames: frame_views(self.frames@),
            out: views(self.out@),
            reading: match self.reading {
                Some(r) => Some(r@),
                None => None,
            },
        }
    }
}

/// What the outside reports: go on, the canonical form of the path asked
/// for, the contents of the listing asked for, or a failure of either.
pub enum ExpandEvent {
    Next,
    Resolved(String),
    Read(String),
    Failed(String),
}

/// An event as plain values.
pub enum ExpandEventView {
    Next,
    Resolved(Seq<char>),
    Read(Seq<char>),
    Failed(Seq<char>),
}

impl View for ExpandEvent {
    type V = ExpandEventView;

    open spec fn view(&self) -> ExpandEventView {
        match self {
            ExpandEvent::Next => ExpandEventView::Next,
            ExpandEvent::Resolved(p) => ExpandEventView::Resolved(p@),
            ExpandEvent::Read(c) => ExpandEventView::Read(c@),
            ExpandEvent::Failed(m) => ExpandEventView::Failed(m@),
        }
    }
}

/// What the expansion asks of the outside: to call it again, to resolve a
/// path to its canonical form, to read a listing; or it is done, with the
/// paths, or stopped by an error.
pub enum ExpandAction {
    Continue,
    Resolve(String),
    Read(String),
    Done(Vec<String>),
    Fail(InputError),
}

/// An action as plain values.
pub enum ExpandActionView {
    Continue,
    Resolve(Seq<char>),
    Read(Seq<char>),
    Done(Seq<Seq<char>>),
    Fail(InputErrorView),
}

impl View for ExpandAction {
    type V = ExpandActionView;

    open spec fn view(&self) -> ExpandActionView {
        match self {
            ExpandAction::Continue => ExpandActionView::Continue,
            ExpandAction::Resolve(p) => ExpandActionView::Resolve(p@),
            ExpandAction::Read(p) => ExpandActionView::Read(p@),
            ExpandAction::Done(v) => ExpandActionView::Done(views(v@)),
            ExpandAction::Fail(e) => ExpandActionView::Fail(e@),
        }
    }
}

/// The expansion before the first step.
pub open spec fn initial_spec(base_dir: Seq<char>, args: Seq<Seq<char>>) -> ExpandStateView {
    ExpandStateView { base_dir, args, next_arg: 0, frames: Seq::empty(), out: Seq::empty(), reading: None }
}

/// Starts expanding `args`, relative to `base_dir`.
pub fn expand_start(base_dir: String, args: Vec<String>) -> (res: ExpandState)
    ensures
        res@ == initial_spec(base_dir@, views(args@)),
{
    let res = ExpandState { base_dir, args, next_arg: 0, frames: Vec::new(), out: Vec::new(), reading: None };
    assert(res@ =~= initial_spec(res.base_dir@, views(res.args@)));
    res
}

/// What a reference `r` (with its `@`) met in `dir` asks for: an error
/// when it names nothing, else to resolve the named path relative to `dir`.
pub open spec fn reference_request(dir: Seq<char>, r: Seq<char>) -> ExpandActionView {
    if r.len() <= 1 {
        ExpandActionView::Fail(InputErrorView::EmptyReference)
    } else {
        ExpandActionView::Resolve(join_spec(dir, r.subrange(1, r.len() as int)))
    }
}

/// One step forward: the next entry of the innermost listing (a path is
/// kept, a reference is to be resolved), or the end of that listing, or the
/// next argument (a plain path is kept, `@file` is to be resolved), or done.
pub open spec fn advance_spec(s: ExpandStateView) -> (ExpandStateView, ExpandActionView) {
    if s.frames.len() > 0 {
        let f = s.frames.last();
        if 0 <= f.next < f.items.len() {
            let s2 = ExpandStateView {
                frames: s.frames.update(s.frames.len() - 1, FrameView { next: f.next + 1, ..f }),
                ..s
            };
            match f.items[f.next] {
                ListingItemView::Path(p) => (ExpandStateView { out: s2.out.push(p), ..s2 }, ExpandActionView::Continue),
                ListingItemView::Reference(r) => (s2, reference_request(f.dir, r)),
            }
        } else {
            (ExpandStateView { frames: s.frames.drop_last(), ..s }, ExpandActionView::Continue)
        }
    } else if 0 <= s.next_arg < s.args.len() {
        let a = s.args[s.next_arg];
        let s2 = ExpandStateView { next_arg: s.next_arg + 1, ..s };
        if a.len() > 0 && a[0] == '@' {
            (s2, reference_request(s.base_dir, a))
        } else {
            (ExpandStateView { out: s2.out.push(a), ..s2 }, ExpandActionView::Continue)
        }
    } else {
        (s, ExpandActionView::Done(s.out))
    }
}

/// Some listing being read has the canonical path `c`.
pub open spec fn being_read(s: ExpandStateView, c: Seq<char>) -> bool {
    exists|i: int| 0 <= i < s.frames.len() && s.frames[i].canonical == c
}

/// One step of the expansion: the state after `e` and what to do next. A
/// canonical path already being read is circular; otherwise it is to be
/// read. The contents read become a new innermost listing, its directory the
/// canonical path's. A failure of the outside stops the expansion.
pub open spec fn expand_step_spec(s: ExpandStateView, e: ExpandEventView) -> (ExpandStateView, ExpandActionView) {
    match e {
        ExpandEventView::Next => advance_spec(s),
        ExpandEventView::Resolved(c) => if being_read(s, c) {
            (s, ExpandActionView::Fail(InputErrorView::Circular(c)))
        } else {
            (ExpandStateView { reading: Some(c), ..s }, ExpandActionView::Read(c))
        },
        ExpandEventView::Read(content) => match s.reading {
            Some(c) => {
                let d = parent_spec(c);
                (
                    ExpandStateView {
                        frames: s.frames.push(FrameView { canonical: c, dir: d, items: listing_items_spec(content, d), next: 0 }),
                        reading: None,
                        ..s
                    },
                    ExpandActionView::Continue,
                )
            },
            None => (s, ExpandActionView::Continue),
        },
        ExpandEventView::Failed(m) => (s, ExpandActionView::Fail(InputErrorView::Unreadable(m))),
    }
}

/// The expansion after `n` steps, each told only to go on, and the action
/// of the last of them.
pub open spec fn steps_spec(s: ExpandStateView, n: nat) -> (ExpandStateView, ExpandActionView)
    decreases n,
{
    if n == 0 {
        (s, ExpandActionView::Continue)
    } else {
        let (s1, a1) = expand_step_spec(s, ExpandEventView::Next);
        if n == 1 {
            (s1, a1)
        } else {
            steps_spec(s1, (n - 1) as nat)
        }
    }
}

/// Plain arguments pass through unchanged: with no listing open and none
/// of the remaining arguments starting with `@`, one step per remaining
/// argument keeps it, in order, and the next step is done with the paths
/// found so far followed by those arguments.
pub proof fn lemma_plain_arguments_pass_through(s: ExpandStateView)
    requires
        s.frames.len() == 0,
        0 <= s.next_arg <= s.args.len(),
        forall|i: int| s.next_arg <= i < s.args.len() ==> !(s.args[i].len() > 0 && s.args[i][0] == '@'),
    ensures
        steps_spec(s, (s.args.len() - s.next_arg + 1) as nat).1 == ExpandActionView::Done(
            s.out + s.args.subrange(s.next_arg, s.args.len() as int),
        ),
    decreases s.args.len() - s.next_arg,
{
    if s.next_arg == s.args.len() {
        assert(s.out + s.args.subrange(s.next_arg, s.args.len() as int) =~= s.out);
    } else {
        let k = s.next_arg;
        let s1 = expand_step_spec(s, ExpandEventView::Next).0;
        assert(s1.out == s.out.push(s.args[k]));
        assert(s1.next_arg == k + 1);
        lemma_plain_arguments_pass_through(s1);
        assert(s1.out + s.args.subrange(k + 1, s.args.len() as int) =~= s.out + s.args.subrange(k, s.args.len() as int));
    }
}

/// A copy of some strings.
pub fn copy_strings(v: &Vec<String>) -> (res: Vec<String>)
    ensures
        res@ == v@,
        views(res@) == views(v@),
{
    let mut out: Vec<String> = Vec::new();
    let mut i: usize = 0;
    while i < v.len()
        invariant
            i <= v@.len(),
            out@ == v@.subrange(0, i as int),
        decreases v.len() - i,
    {
        out.push(v[i].clone());
        i = i + 1;
        assert(out@ =~= v@.subrange(0, i as int));
    }
    assert(v@.subrange(0, i as int) =~= v@);
    out
}

/// A copy of a listing entry.
fn copy_item(item: &ListingItem) -> (res: ListingItem)
    ensures
        res@ == item@,
{
    match item {
        ListingItem::Path(p) => ListingItem::Path(p.clone()),
        ListingItem::Reference(r) => ListingItem::Reference(r.clone()),
    }
}

/// What a reference `r` met in `dir` asks for.
fn reference_step(dir: &str, r: &str) -> (res: ExpandAction)
    ensures
        res@ == reference_request(dir@, r@),
{
    let n = r.unicode_len();
    if n <= 1 {
        ExpandAction::Fail(InputError::EmptyReference)
    } else {
        let rest = substring(r, 1, n);
        ExpandAction::Resolve(join_path(dir, rest.as_str()))
    }
}

/// Whether a listing with canonical path `c` is being read.
fn is_being_read(frames: &Vec<Frame>, c: &str) -> (res: bool)
    ensures
        res == exists|i: int| 0 <= i < frames@.len() && frames@[i].canonical@ == c@,
{
    let mut i: usize = 0;
    while i < frames.len()
        invariant
            i <= frames@.len(),
            forall|j: int| 0 <= j < i ==> frames@[j].canonical@ != c@,
        decreases frames.len() - i,
    {
        if crate::text::str_eq(frames[i].canonical.as_str(), c) {
            return true;
        }
        i = i + 1;
    }
    false
}

/// One step forward of the expansion (see `advance_spec`).
fn advance(state: &mut ExpandState) -> (res: ExpandAction)
    ensures
        (final(state)@, res@) == advance_spec(old(state)@),
{
    let ghost s0 = state@;
    if state.frames.len() > 0 {
        let mut f = state.frames.pop().unwrap();
        proof {
            assert(f@ == s0.frames.last());
        }
        if f.next < f.items.len() {
            let k = f.next;
            f.next = f.next + 1;
            let dir = f.dir.clone();
            let item = copy_item(&f.items[k]);
            proof {
                assert(item_views(f.items@)[k as int] == f.items@[k as int]@);
            }
            state.frames.push(f);
            proof {
                assert(frame_views(state.frames@) =~= s0.frames.update(s0.frames.len() - 1, FrameView { next: s0.frames.last().next + 1, ..s0.frames.last() }));
            }
            match item {
                ListingItem::Path(p) => {
                    state.out.push(p);
                    proof {
                        assert(views(state.out@) =~= s0.out.push(item@->Path_0));
                    }
                    assert(state@ =~= advance_spec(s0).0);
                    ExpandAction::Continue
                },
                ListingItem::Reference(r) => {
                    assert(state@ =~= advance_spec(s0).0);
                    reference_step(dir.as_str(), r.as_str())
                },
            }
        } else {
            proof {
                assert(frame_views(state.frames@) =~= s0.frames.drop_last());
            }
            assert(state@ =~= advance_spec(s0).0);
            ExpandAction::Continue
        }
    } else if state.next_arg < state.args.len() {
        let k = state.next_arg;
        state.next_arg = k + 1;
        let a = state.args[k].clone();
        proof {
            assert(views(state.args@)[k as int] == a@);
        }
        if a.unicode_len() > 0 && a.as_str().get_char(0) == '@' {
            assert(state@ =~= advance_spec(s0).0);
            let base = state.base_dir.clone();
            reference_step(base.as_str(), a.as_str())
        } else {
            state.out.push(a);
            proof {
                assert(views(state.out@) =~= s0.out.push(s0.args[k as int]));
            }
            assert(state@ =~= advance_spec(s0).0);
            ExpandAction::Continue
        }
    } else {
        let out = copy_strings(&state.out);
        ExpandAction::Done(out)
    }
}

/// One step of the expansion: the state after `event`, and what to do next.
pub fn expand_step(state: &mut ExpandState, event: ExpandEvent) -> (res: ExpandAction)
    ensures
        (final(state)@, res@) == expand_step_spec(old(state)@, event@),
{
    let ghost s0 = state@;
    match event {
        ExpandEvent::Next => advance(state),
        ExpandEvent::Resolved(c) => {
            if is_being_read(&state.frames, c.as_str()) {
                proof {
                    let i = choose|i: int| 0 <= i < state.frames@.len() && state.frames@[i].canonical@ == c@;
                    assert(s0.frames[i].canonical == c@);
                }
                ExpandAction::Fail(InputError::Circular(c))
            } else {
                proof {
                    assert forall|i: int| 0 <= i < s0.frames.len() implies s0.frames[i].canonical != c@ by {
                        assert(s0.frames[i] == state.frames@[i]@);
                    }
                }
                let copy = c.clone();
                state.reading = Some(c);
                assert(state@ =~= expand_step_spec(s0, ExpandEventView::Resolved(copy@)).0);
                ExpandAction::Read(copy)
            }
        },
        ExpandEvent::Read(content) => {
            match state.reading.take() {
                Some(c) => {
                    let d = parent_path(c.as_str());
                    let items = listing_entries(content.as_str(), d.as_str());
                    state.frames.push(Frame { canonical: c, dir: d, items, next: 0 });
                    proof {
                        assert(frame_views(state.frames@) =~= s0.frames.push(state.frames@.last()@));
                    }
                    assert(state@ =~= expand_step_spec(s0, ExpandEventView::Read(content@)).0);
                    ExpandAction::Continue
                },
                None => ExpandAction::Continue,
            }
        },
        ExpandEvent::Failed(m) => ExpandAction::Fail(InputError::Unreadable(m)),
    }
}

/// The paths kept of `paths` given which exist: existing ones, in order;
/// missing ones without an extension dropped; stopped at the first missing
/// one with an extension (`Err` with that path).
pub open spec fn filter_paths_spec(paths: Seq<Seq<char>>, exists: Seq<bool>) -> Result<Seq<Seq<char>>, Seq<char>>
    decreases paths.len(),
{
    if paths.len() == 0 || exists.len() < paths.len() {
        Ok(Seq::empty())
    } else {
        let n = paths.len() - 1;
        match filter_paths_spec(paths.drop_last(), exists.subrange(0, n)) {
            Err(p) => Err(p),
            Ok(kept) => if exists[n] {
                Ok(kept.push(paths[n]))
            } else if !has_extension_spec(paths[n]) {
                Ok(kept)
            } else {
                Err(paths[n])
            },
        }
    }
}

/// Once a prefix of the paths is refused, every longer prefix is refused
/// for the same path.
proof fn lemma_filter_err_extends(paths: Seq<Seq<char>>, exists: Seq<bool>, i: int, j: int, p: Seq<char>)
    requires
        0 <= i <= j <= paths.len(),
        exists.len() == paths.len(),
        filter_paths_spec(paths.subrange(0, i), exists.subrange(0, i)) == Err::<Seq<Seq<char>>, Seq<char>>(p),
    ensures
        filter_paths_spec(paths.subrange(0, j), exists.subrange(0, j)) == Err::<Seq<Seq<char>>, Seq<char>>(p),
    decreases j - i,
{
    if j > i {
        lemma_filter_err_extends(paths, exists, i, j - 1, p);
        assert(paths.subrange(0, j).drop_last() =~= paths.subrange(0, j - 1));
        assert(exists.subrange(0, j).subrange(0, j - 1) =~= exists.subrange(0, j - 1));
    }
}

/// Keeps the paths that exist, drops missing ones without an extension, and
/// refuses the first missing one with an extension.
pub fn filter_paths(paths: &Vec<String>, exists: &Vec<bool>) -> (res: Result<Vec<String>, InputError>)
    requires
        exists@.len() == paths@.len(),
    ensures
        match filter_paths_spec(views(paths@), exists@) {
            Ok(kept) => res matches Ok(v) && views(v@) == kept,
            Err(p) => res matches Err(e) && e@ == InputErrorView::NotFound(p),
        },
{
    let mut kept: Vec<String> = Vec::new();
    let mut i: usize = 0;
    proof {
        assert(views(paths@).subrange(0, 0) =~= Seq::<Seq<char>>::empty());
        assert(views(kept@) =~= Seq::<Seq<char>>::empty());
    }
    while i < paths.len()
        invariant
            i <= paths@.len(),
            exists@.len() == paths@.len(),
            filter_paths_spec(views(paths@).subrange(0, i as int), exists@.subrange(0, i as int)) == Ok::<Seq<Seq<char>>, Seq<char>>(views(kept@)),
        decreases paths.len() - i,
    {
        let ghost before = views(kept@);
        proof {
            let ps = views(paths@).subrange(0, i + 1);
            assert(ps.drop_last() =~= views(paths@).subrange(0, i as int));
            assert(exists@.subrange(0, i + 1).subrange(0, i as int) =~= exists@.subrange(0, i as int));
            assert(ps[i as int] == paths@[i as int]@);
        }
        let p = &paths[i];
        if exists[i] {
            kept.push(p.clone());
            assert(views(kept@) =~= before.push(p@));
        } else if has_extension(p.as_str()) {
            proof {
                lemma_filter_err_extends(views(paths@), exists@, i + 1, paths@.len() as int, p@);
                assert(views(paths@).subrange(0, paths@.len() as int) =~= views(paths@));
                assert(exists@.subrange(0, paths@.len() as int) =~= exists@);
            }
            return Err(InputError::NotFound(p.clone()));
        }
        i = i + 1;
    }
    proof {
        assert(views(paths@).subrange(0, i as int) =~= views(paths@));
        assert(exists@.subrange(0, i as int) =~= exists@);
    }
    Ok(kept)
}

} // verus!
