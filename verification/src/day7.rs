//! A file system rebuilt from the record of a terminal session: the lines
//! are commands (`$ cd a`, `$ ls`) and the entries that `ls` lists (`dir a`,
//! `123 b.txt`).

pub mod tree;

use crate::day7::tree::id_indices;
use crate::day7::tree::id_slot;
use crate::day7::tree::insert_node;
use crate::day7::tree::is_full;
use crate::day7::tree::is_ordered;
use crate::day7::tree::new_tree;
use crate::day7::tree::owns;
use crate::day7::tree::pre_order;
use crate::day7::tree::pre_order_all;
use crate::day7::tree::pre_order_ids;
use crate::day7::tree::read_node;
use crate::day7::tree::slot_children;
use crate::day7::tree::slot_parent;
use crate::day7::tree::slot_size;
use crate::day7::tree::tree_key;
use crate::day7::tree::tree_nodes;
use crate::day7::tree::with_node;
use crate::text::chars_of;
use crate::text::line_ranges;
use crate::text::lines;
use crate::text::ranges_cut;
use crate::text::decimal_value;
use crate::text::non_digit_from;
use crate::text::non_digit_index;
use crate::text::parse_u64;
use id_tree::NodeId;
use id_tree::Tree;
use vstd::prelude::*;
use vstd::slice::slice_subrange;
use vstd::std_specs::convert::FromSpecImpl;
use vstd::string::StrSliceExecFns;

verus! {

/// The command that lists a directory.
#[derive(Debug, Clone, Copy, PartialEq, Eq, Structural)]
pub struct Ls;

/// The command that changes the directory, with the path to go to.
#[derive(Debug, Clone, PartialEq, Eq)]
pub struct Cd(pub String);

/// A command of the session.
#[derive(Debug, Clone, PartialEq, Eq)]
pub enum Command {
    Ls,
    Cd(String),
}

/// What `ls` lists: a directory by its name, or a file by its size and its
/// name.
#[derive(Debug, Clone, PartialEq, Eq)]
pub enum FilesystemEntry {
    Dir(String),
    File(u64, String),
}

/// A line of the session.
#[derive(Debug, Clone, PartialEq, Eq)]
pub enum ParsedLine {
    Command(Command),
    Entry(FilesystemEntry),
}

/// What a line of the session says.
pub enum Meaning {
    Ls,
    Cd(Seq<char>),
    Dir(Seq<char>),
    File(int, Seq<char>),
}

impl From<Ls> for Command {
    fn from(_ls: Ls) -> (command: Command) {
        Command::Ls
    }
}

impl FromSpecImpl<Ls> for Command {
    open spec fn obeys_from_spec() -> bool {
        true
    }

    open spec fn from_spec(_ls: Ls) -> Command {
        Command::Ls
    }
}

impl From<Cd> for Command {
    fn from(cd: Cd) -> (command: Command) {
        Command::Cd(cd.0)
    }
}

impl FromSpecImpl<Cd> for Command {
    open spec fn obeys_from_spec() -> bool {
        true
    }

    open spec fn from_spec(cd: Cd) -> Command {
        Command::Cd(cd.0)
    }
}

impl Command {
    /// What the command says.
    pub open spec fn meaning(self) -> Meaning {
        match self {
            Command::Ls => Meaning::Ls,
            Command::Cd(path) => Meaning::Cd(path@),
        }
    }
}

impl FilesystemEntry {
    /// What the entry says.
    pub open spec fn meaning(self) -> Meaning {
        match self {
            FilesystemEntry::Dir(path) => Meaning::Dir(path@),
            FilesystemEntry::File(size, path) => Meaning::File(size as int, path@),
        }
    }
}

impl ParsedLine {
    /// What the line says.
    pub open spec fn meaning(self) -> Meaning {
        match self {
            ParsedLine::Command(command) => command.meaning(),
            ParsedLine::Entry(entry) => entry.meaning(),
        }
    }
}

/// Whether `c` may stand in a path: a small letter, a dot or a slash.
pub open spec fn is_path_char(c: char) -> bool {
    ('a' <= c && c <= 'z') || c == '.' || c == '/'
}

/// The first index at or after `from` whose character may not stand in a
/// path, or the length of `s`.
pub open spec fn path_end(s: Seq<char>, from: int) -> int
    decreases s.len() - from,
{
    if 0 <= from < s.len() && is_path_char(s[from]) {
        path_end(s, from + 1)
    } else {
        from
    }
}

/// Whether `s` begins with `word`.
pub open spec fn starts_with(s: Seq<char>, word: Seq<char>) -> bool {
    word.len() <= s.len() && s.take(word.len() as int) == word
}

/// A path at the start of `s`: the longest run of path characters, which
/// must not be empty. The result pairs what follows the path with the path.
pub open spec fn path_at(s: Seq<char>) -> Option<(Seq<char>, Seq<char>)> {
    let end = path_end(s, 0);
    if end > 0 {
        Some((s.skip(end), s.take(end)))
    } else {
        None
    }
}

/// The word `ls` at the start of `s`; the result is what follows it.
pub open spec fn ls_at(s: Seq<char>) -> Option<Seq<char>> {
    if starts_with(s, "ls"@) {
        Some(s.skip("ls"@.len() as int))
    } else {
        None
    }
}

/// `cd`, a space and a path at the start of `s`.
pub open spec fn cd_at(s: Seq<char>) -> Option<(Seq<char>, Seq<char>)> {
    if starts_with(s, "cd "@) {
        path_at(s.skip("cd "@.len() as int))
    } else {
        None
    }
}

/// A command at the start of `s`: a dollar sign, a space, then `ls` or, if
/// that is not there, `cd` with its path.
pub open spec fn command_at(s: Seq<char>) -> Option<(Seq<char>, Meaning)> {
    if !starts_with(s, "$ "@) {
        None
    } else {
        let after = s.skip("$ "@.len() as int);
        match ls_at(after) {
            Some(rest) => Some((rest, Meaning::Ls)),
            None => match cd_at(after) {
                Some((rest, path)) => Some((rest, Meaning::Cd(path))),
                None => None,
            },
        }
    }
}

/// A file at the start of `s`: the longest run of digits, which must not be
/// empty and must write a number that a `u64` can hold, a space and a path.
pub open spec fn file_at(s: Seq<char>) -> Option<(Seq<char>, Meaning)> {
    let end = non_digit_from(s, 0);
    if end > 0 && decimal_value(s.take(end)) <= u64::MAX && end < s.len() && s[end] == ' ' {
        match path_at(s.skip(end + 1)) {
            Some((rest, path)) => Some((rest, Meaning::File(decimal_value(s.take(end)), path))),
            None => None,
        }
    } else {
        None
    }
}

/// `dir`, a space and a path at the start of `s`.
pub open spec fn dir_at(s: Seq<char>) -> Option<(Seq<char>, Meaning)> {
    if starts_with(s, "dir "@) {
        match path_at(s.skip("dir "@.len() as int)) {
            Some((rest, path)) => Some((rest, Meaning::Dir(path))),
            None => None,
        }
    } else {
        None
    }
}

/// An entry at the start of `s`: a file or, if that is not there, a
/// directory.
pub open spec fn entry_at(s: Seq<char>) -> Option<(Seq<char>, Meaning)> {
    match file_at(s) {
        Some(found) => Some(found),
        None => dir_at(s),
    }
}

/// A command or, if that is not there, an entry at the start of `s`.
pub open spec fn line_at(s: Seq<char>) -> Option<(Seq<char>, Meaning)> {
    match command_at(s) {
        Some(found) => Some(found),
        None => entry_at(s),
    }
}

/// What a whole line says: the command or entry at its start, provided that
/// nothing follows it.
pub open spec fn line_meaning(s: Seq<char>) -> Option<Meaning> {
    match line_at(s) {
        Some((rest, meaning)) => if rest.len() == 0 {
            Some(meaning)
        } else {
            None
        },
        None => None,
    }
}

/// Takes `word` off the start of `i`.
pub fn tag<'a>(i: &'a str, word: &str) -> (r: Option<&'a str>)
    ensures
        match r {
            Some(rest) => starts_with(i@, word@) && rest@ == i@.skip(word@.len() as int),
            None => !starts_with(i@, word@),
        },
{
    let chars = chars_of(i);
    let wanted = chars_of(word);
    if wanted.len() > chars.len() {
        return None;
    }
    let mut k: usize = 0;
    while k < wanted.len()
        invariant
            k <= wanted@.len() <= chars@.len(),
            chars@ == i@,
            wanted@ == word@,
            chars@.take(k as int) == wanted@.take(k as int),
        decreases wanted@.len() - k,
    {
        if chars[k] != wanted[k] {
            assert(chars@.take(wanted@.len() as int)[k as int] != wanted@[k as int]);
            return None;
        }
        assert(chars@.take(k + 1) =~= chars@.take(k as int).push(chars@[k as int]));
        assert(wanted@.take(k + 1) =~= wanted@.take(k as int).push(wanted@[k as int]));
        k += 1;
    }
    assert(wanted@.take(k as int) == wanted@);
    Some(i.substring_char(wanted.len(), chars.len()))
}

/// Takes a path off the start of `i`.
pub fn parse_path<'a>(i: &'a str) -> (r: Option<(&'a str, String)>)
    ensures
        match r {
            Some((rest, path)) => path_at(i@) == Some((rest@, path@)),
            None => path_at(i@) is None,
        },
{
    let chars = chars_of(i);
    let mut end: usize = 0;
    while end < chars.len() && (('a' <= chars[end] && chars[end] <= 'z') || chars[end] == '.'
        || chars[end] == '/')
        invariant
            end <= chars@.len(),
            path_end(chars@, 0) == path_end(chars@, end as int),
        decreases chars@.len() - end,
    {
        end += 1;
    }
    if end == 0 {
        return None;
    }
    let path = i.substring_char(0, end).to_owned();
    let rest = i.substring_char(end, chars.len());
    Some((rest, path))
}

/// Takes `ls` off the start of `i`.
pub fn parse_ls<'a>(i: &'a str) -> (r: Option<(&'a str, Ls)>)
    ensures
        match r {
            Some((rest, _)) => ls_at(i@) == Some(rest@),
            None => ls_at(i@) is None,
        },
{
    match tag(i, "ls") {
        Some(rest) => Some((rest, Ls)),
        None => None,
    }
}

/// Takes `cd` and its path off the start of `i`.
pub fn parse_cd<'a>(i: &'a str) -> (r: Option<(&'a str, Cd)>)
    ensures
        match r {
            Some((rest, cd)) => cd_at(i@) == Some((rest@, cd.0@)),
            None => cd_at(i@) is None,
        },
{
    match tag(i, "cd ") {
        Some(after) => match parse_path(after) {
            Some((rest, path)) => Some((rest, Cd(path))),
            None => None,
        },
        None => None,
    }
}

/// Takes a command off the start of `i`.
pub fn parse_command<'a>(i: &'a str) -> (r: Option<(&'a str, Command)>)
    ensures
        match r {
            Some((rest, command)) => command_at(i@) == Some((rest@, command.meaning())),
            None => command_at(i@) is None,
        },
{
    let after = match tag(i, "$ ") {
        Some(after) => after,
        None => {
            return None;
        },
    };
    match parse_ls(after) {
        Some((rest, ls)) => Some((rest, Command::from(ls))),
        None => match parse_cd(after) {
            Some((rest, cd)) => Some((rest, Command::from(cd))),
            None => None,
        },
    }
}

/// Takes an entry off the start of `i`.
pub fn parse_entry<'a>(i: &'a str) -> (r: Option<(&'a str, FilesystemEntry)>)
    ensures
        match r {
            Some((rest, entry)) => entry_at(i@) == Some((rest@, entry.meaning())),
            None => entry_at(i@) is None,
        },
{
    let chars = chars_of(i);
    let end = non_digit_index(chars.as_slice(), 0);
    if end > 0 && end < chars.len() && chars[end] == ' ' {
        let digits = slice_subrange(chars.as_slice(), 0, end);
        assert(digits@ == i@.take(end as int));
        assert(digits@[0] == chars@[0]);
        proof {
            crate::text::lemma_non_digit(chars@, 0);
            assert(crate::text::is_digit(digits@[0]));
            assert(crate::text::all_digits(digits@)) by {
                assert forall|k: int| 0 <= k < digits@.len() implies crate::text::is_digit(
                    #[trigger] digits@[k],
                ) by {
                    assert(crate::text::is_digit(chars@[k]));
                }
            }
            assert(crate::text::unsigned_digits(digits@) == digits@);
        }
        match parse_u64(digits) {
            Some(size) => {
                match parse_path(i.substring_char(end + 1, chars.len())) {
                    Some((rest, path)) => {
                        return Some((rest, FilesystemEntry::File(size, path)));
                    },
                    None => {},
                }
            },
            None => {},
        }
    }
    match tag(i, "dir ") {
        Some(after) => match parse_path(after) {
            Some((rest, path)) => Some((rest, FilesystemEntry::Dir(path))),
            None => None,
        },
        None => None,
    }
}

/// Takes a command or an entry off the start of `i`.
pub fn parse_line<'a>(i: &'a str) -> (r: Option<(&'a str, ParsedLine)>)
    ensures
        match r {
            Some((rest, line)) => line_at(i@) == Some((rest@, line.meaning())),
            None => line_at(i@) is None,
        },
{
    match parse_command(i) {
        Some((rest, command)) => Some((rest, ParsedLine::Command(command))),
        None => match parse_entry(i) {
            Some((rest, entry)) => Some((rest, ParsedLine::Entry(entry))),
            None => None,
        },
    }
}

/// Reads a whole line of the session; `None` where the line is no command
/// and no entry, or where something follows the command or the entry.
pub fn parse_whole_line(i: &str) -> (r: Option<ParsedLine>)
    ensures
        match r {
            Some(line) => line_meaning(i@) == Some(line.meaning()),
            None => line_meaning(i@) is None,
        },
{
    match parse_line(i) {
        Some((rest, line)) => {
            if rest.unicode_len() == 0 {
                Some(line)
            } else {
                None
            }
        },
        None => None,
    }
}

/// The path that stands for the top of the file system.
pub open spec fn root_path() -> Seq<char> {
    seq!['/']
}

/// The path that stands for the directory above.
pub open spec fn parent_path() -> Seq<char> {
    seq!['.', '.']
}

/// The tree and the current directory after one more line of the session.
/// `cd` with a name makes a directory below the current one and enters it,
/// `cd ..` goes to the parent and `cd /` changes nothing; a file is put
/// into the current directory; `ls` and the directories that it lists
/// change nothing. `None` where `cd ..` is said in a directory without a
/// parent.
pub open spec fn session_step(
    nodes: Seq<Option<(int, u64, Seq<int>)>>,
    current: int,
    line: Meaning,
) -> Option<(Seq<Option<(int, u64, Seq<int>)>>, int)> {
    match line {
        Meaning::Ls => Some((nodes, current)),
        Meaning::Dir(_) => Some((nodes, current)),
        Meaning::File(size, _) => Some((with_node(nodes, current, size as u64), current)),
        Meaning::Cd(path) => if path == root_path() {
            Some((nodes, current))
        } else if path == parent_path() {
            if slot_parent(nodes, current) == -1 {
                None
            } else {
                Some((nodes, slot_parent(nodes, current)))
            }
        } else {
            Some((with_node(nodes, current, 0), nodes.len() as int))
        },
    }
}

/// The tree and the current directory after all the lines of a session
/// that starts in the root of a tree which holds nothing else.
pub open spec fn session_tree(lines: Seq<Meaning>) -> Option<
    (Seq<Option<(int, u64, Seq<int>)>>, int),
>
    decreases lines.len(),
{
    if lines.len() == 0 {
        Some((with_node(Seq::empty(), -1, 0), 0))
    } else {
        match session_tree(lines.drop_last()) {
            Some((nodes, current)) => session_step(nodes, current, lines.last()),
            None => None,
        }
    }
}

/// What the lines say.
pub open spec fn meanings(lines: Seq<ParsedLine>) -> Seq<Meaning> {
    Seq::new(lines.len(), |i: int| lines[i].meaning())
}

/// Whether the slots are those of a tree that was built by putting in one
/// node after the other: every slot holds a node, slot 0 holds the root, and
/// every other node has a parent in an earlier slot that lists it among its
/// children.
pub open spec fn well_formed(nodes: Seq<Option<(int, u64, Seq<int>)>>) -> bool {
    &&& nodes.len() >= 1
    &&& is_full(nodes)
    &&& is_ordered(nodes)
    &&& slot_parent(nodes, 0) == -1
    &&& forall|i: int|
        0 < i < nodes.len() ==> 0 <= #[trigger] slot_parent(nodes, i) < i && slot_children(
            nodes,
            slot_parent(nodes, i),
        ).contains(i)
}

/// A tree of one node is well formed.
pub proof fn lemma_first_node(size: u64)
    ensures
        well_formed(with_node(Seq::empty(), -1, size)),
{
    let nodes = with_node(Seq::empty(), -1, size);
    assert(nodes.len() == 1);
    assert(slot_children(nodes, 0) == Seq::<int>::empty());
}

/// A well-formed tree stays well formed when a node is put under one of its
/// nodes.
pub proof fn lemma_next_node(nodes: Seq<Option<(int, u64, Seq<int>)>>, parent: int, size: u64)
    requires
        well_formed(nodes),
        0 <= parent < nodes.len(),
    ensures
        well_formed(with_node(nodes, parent, size)),
        with_node(nodes, parent, size).len() == nodes.len() + 1,
{
    let after = with_node(nodes, parent, size);
    let n = nodes.len() as int;
    assert(nodes[parent] is Some);
    assert(slot_children(after, parent) == slot_children(nodes, parent).push(n));
    assert(slot_children(after, n) == Seq::<int>::empty());
    assert forall|i: int| 0 <= i < after.len() implies (#[trigger] after[i]) is Some by {
        if i < n && i != parent {
            assert(nodes[i] is Some);
        }
    }
    assert forall|i: int, k: int|
        0 <= i < after.len() && 0 <= k < slot_children(after, i).len() implies i < (
        #[trigger] slot_children(after, i)[k]) < after.len() by {
        if i < n && i != parent {
            assert(slot_children(after, i) == slot_children(nodes, i));
            assert(i < slot_children(nodes, i)[k] < n);
        } else if i == parent {
            if k < slot_children(nodes, parent).len() {
                assert(i < slot_children(nodes, i)[k] < n);
            }
        }
    }
    assert forall|i: int| 0 < i < after.len() implies 0 <= #[trigger] slot_parent(after, i) < i
        && slot_children(after, slot_parent(after, i)).contains(i) by {
        if i < n {
            let p = slot_parent(nodes, i);
            assert(slot_parent(after, i) == p);
            assert(slot_children(nodes, p).contains(i));
            let k = choose|k: int| 0 <= k < slot_children(nodes, p).len() && slot_children(
                nodes,
                p,
            )[k] == i;
            if p == parent {
                assert(slot_children(after, p)[k] == i);
            } else {
                assert(slot_children(after, p) == slot_children(nodes, p));
            }
        } else {
            assert(slot_parent(after, i) == parent);
            assert(slot_children(after, parent)[slot_children(nodes, parent).len() as int] == n);
        }
    }
    assert(slot_parent(after, 0) == -1) by {
        assert(slot_parent(nodes, 0) == -1);
    }
}

/// The size of all that is below slot `v`, with `v` itself. Defined for
/// ordered trees.
pub open spec fn subtree_size(nodes: Seq<Option<(int, u64, Seq<int>)>>, v: int) -> int
    decreases nodes.len() - v, 1nat, 0nat,
{
    if 0 <= v < nodes.len() {
        slot_size(nodes, v) + subtree_sizes(nodes, v, slot_children(nodes, v))
    } else {
        0
    }
}

/// The sizes of the subtrees of the nodes `list` together. The nodes are
/// children of slot `v`; one that does not stand in a later slot than `v`
/// counts for nothing.
pub open spec fn subtree_sizes(nodes: Seq<Option<(int, u64, Seq<int>)>>, v: int, list: Seq<int>) -> int
    decreases nodes.len() - v, 0nat, list.len(),
{
    if list.len() == 0 {
        0
    } else if v < list[0] < nodes.len() {
        subtree_size(nodes, list[0]) + subtree_sizes(nodes, v, list.drop_first())
    } else {
        subtree_sizes(nodes, v, list.drop_first())
    }
}

/// No subtree has a negative size.
pub proof fn lemma_sizes_not_negative(nodes: Seq<Option<(int, u64, Seq<int>)>>, v: int, list: Seq<int>)
    ensures
        0 <= subtree_size(nodes, v),
        0 <= subtree_sizes(nodes, v, list),
    decreases nodes.len() - v, 1nat, list.len(),
{
    if 0 <= v < nodes.len() {
        lemma_children_not_negative(nodes, v, slot_children(nodes, v));
    }
    lemma_children_not_negative(nodes, v, list);
}

/// The subtrees of a list of children have no negative size together.
proof fn lemma_children_not_negative(nodes: Seq<Option<(int, u64, Seq<int>)>>, v: int, list: Seq<int>)
    ensures
        0 <= subtree_sizes(nodes, v, list),
    decreases nodes.len() - v, 0nat, list.len(),
{
    if list.len() > 0 {
        if v < list[0] < nodes.len() {
            lemma_sizes_not_negative(nodes, list[0], Seq::empty());
        }
        lemma_children_not_negative(nodes, v, list.drop_first());
    }
}

/// The subtree of one child is no larger than the subtrees of all the
/// children together.
proof fn lemma_child_size(nodes: Seq<Option<(int, u64, Seq<int>)>>, v: int, list: Seq<int>, k: int)
    requires
        0 <= k < list.len(),
        v < list[k] < nodes.len(),
    ensures
        subtree_size(nodes, list[k]) <= subtree_sizes(nodes, v, list),
    decreases list.len(),
{
    lemma_children_not_negative(nodes, v, list.drop_first());
    if k == 0 {
    } else {
        lemma_child_size(nodes, v, list.drop_first(), k - 1);
        if v < list[0] < nodes.len() {
            lemma_sizes_not_negative(nodes, list[0], Seq::empty());
        }
    }
}

/// In a well-formed tree no subtree is larger than the whole tree.
pub proof fn lemma_subtree_in_tree(nodes: Seq<Option<(int, u64, Seq<int>)>>, v: int)
    requires
        well_formed(nodes),
        0 <= v < nodes.len(),
    ensures
        subtree_size(nodes, v) <= subtree_size(nodes, 0),
    decreases v,
{
    if v > 0 {
        let p = slot_parent(nodes, v);
        let kids = slot_children(nodes, p);
        assert(kids.contains(v));
        let k = choose|k: int| 0 <= k < kids.len() && kids[k] == v;
        lemma_child_size(nodes, p, kids, k);
        lemma_subtree_in_tree(nodes, p);
    }
}

/// Every node of a pre-order of a well-formed tree stands in a slot.
pub proof fn lemma_pre_order_in_tree(nodes: Seq<Option<(int, u64, Seq<int>)>>, v: int, list: Seq<int>)
    ensures
        forall|k: int|
            0 <= k < pre_order(nodes, v).len() ==> 0 <= #[trigger] pre_order(nodes, v)[k]
                < nodes.len(),
        forall|k: int|
            0 <= k < pre_order_all(nodes, v, list).len() ==> 0 <= #[trigger] pre_order_all(
                nodes,
                v,
                list,
            )[k] < nodes.len(),
    decreases nodes.len() - v, 1nat, list.len(),
{
    if 0 <= v < nodes.len() {
        let below = pre_order_all(nodes, v, slot_children(nodes, v));
        lemma_pre_order_list_in_tree(nodes, v, slot_children(nodes, v));
        assert forall|k: int| 0 <= k < pre_order(nodes, v).len() implies 0 <= #[trigger] pre_order(
            nodes,
            v,
        )[k] < nodes.len() by {
            if k > 0 {
                assert(pre_order(nodes, v)[k] == below[k - 1]);
            }
        }
    }
    lemma_pre_order_list_in_tree(nodes, v, list);
}

/// Every node of the pre-orders of a list of children stands in a slot.
proof fn lemma_pre_order_list_in_tree(nodes: Seq<Option<(int, u64, Seq<int>)>>, v: int, list: Seq<int>)
    ensures
        forall|k: int|
            0 <= k < pre_order_all(nodes, v, list).len() ==> 0 <= #[trigger] pre_order_all(
                nodes,
                v,
                list,
            )[k] < nodes.len(),
    decreases nodes.len() - v, 0nat, list.len(),
{
    if list.len() > 0 {
        let rest = pre_order_all(nodes, v, list.drop_first());
        lemma_pre_order_list_in_tree(nodes, v, list.drop_first());
        if v < list[0] < nodes.len() {
            let first = pre_order(nodes, list[0]);
            lemma_pre_order_in_tree(nodes, list[0], Seq::empty());
            assert forall|k: int|
                0 <= k < pre_order_all(nodes, v, list).len() implies 0 <= #[trigger] pre_order_all(
                nodes,
                v,
                list,
            )[k] < nodes.len() by {
                if k < first.len() {
                    assert(pre_order_all(nodes, v, list)[k] == first[k]);
                } else {
                    assert(pre_order_all(nodes, v, list)[k] == rest[k - first.len()]);
                }
            }
        }
    }
}

/// Why a session gives no answer.
#[derive(Debug, Clone, Copy, PartialEq, Eq, Structural)]
pub enum FsError {
    /// The line with this index, counted from 0, is no command and no
    /// entry.
    InvalidLine(usize),
    /// `cd ..` was said in a directory without a parent.
    NoParent,
    /// The tree did not know one of its own nodes.
    Node,
    /// The files need more space than the disk has.
    DiskOverfull,
    /// The space that is free already exceeds the space that is needed.
    NothingToFree,
    /// The files have a size together that no `u64` can hold.
    TooLarge,
}

impl FsError {
    /// The sentence for the user, as characters.
    pub open spec fn sentence(self) -> Seq<char> {
        match self {
            FsError::InvalidLine(_) => "a line is no command and no entry"@,
            FsError::NoParent => "the directory has no parent"@,
            FsError::Node => "the tree did not know one of its nodes"@,
            FsError::DiskOverfull => "the files need more space than the disk has"@,
            FsError::NothingToFree => "more space is free than is needed"@,
            FsError::TooLarge => "the files are larger than can be counted"@,
        }
    }

    /// A sentence for the user.
    pub fn message(&self) -> (text: &'static str)
        ensures
            text@ == self.sentence(),
    {
        match self {
            FsError::InvalidLine(_) => "a line is no command and no entry",
            FsError::NoParent => "the directory has no parent",
            FsError::Node => "the tree did not know one of its nodes",
            FsError::DiskOverfull => "the files need more space than the disk has",
            FsError::NothingToFree => "more space is free than is needed",
            FsError::TooLarge => "the files are larger than can be counted",
        }
    }
}

/// The space of the whole disk.
pub const TOTAL_SPACE: u64 = 70000000;

/// The space that must be free.
pub const NEEDED_SPACE: u64 = 30000000;

/// A directory tree: the sizes of files and directories, a directory
/// having the size 0 of its own.
pub struct DirTree {
    tree: Tree<u64>,
    root: NodeId,
}

impl DirTree {
    /// The slots of the tree: for each node the index of its parent, its
    /// size and the indices of its children.
    pub closed spec fn nodes(&self) -> Seq<Option<(int, u64, Seq<int>)>> {
        tree_nodes(self.tree)
    }

    /// The tree is well formed and knows its root.
    pub closed spec fn wf(&self) -> bool {
        well_formed(tree_nodes(self.tree)) && id_slot(self.root) == (tree_key(self.tree), 0int)
    }
}

fn is_root_path(path: &str) -> (b: bool)
    ensures
        b == (path@ == root_path()),
{
    let b = path.unicode_len() == 1 && path.get_char(0) == '/';
    proof {
        if b {
            assert(path@ =~= root_path());
        }
    }
    b
}

fn is_parent_path(path: &str) -> (b: bool)
    ensures
        b == (path@ == parent_path()),
{
    let b = path.unicode_len() == 2 && path.get_char(0) == '.' && path.get_char(1) == '.';
    proof {
        if b {
            assert(path@ =~= parent_path());
        }
    }
    b
}

/// Builds the directory tree of a session that starts in the root.
pub fn construct_tree(parsed_lines: &Vec<ParsedLine>) -> (r: Result<DirTree, FsError>)
    ensures
        match r {
            Ok(built) => {
                &&& built.wf()
                &&& session_tree(meanings(parsed_lines@)) matches Some((nodes, _))
                &&& built.nodes() == nodes
            },
            Err(e) => e == FsError::NoParent && session_tree(meanings(parsed_lines@)) is None,
        },
{
    let ghost said = meanings(parsed_lines@);
    let mut tree = new_tree();
    assert(is_full(tree_nodes(tree)));
    let root = match insert_node(&mut tree, 0, None) {
        Ok(id) => id,
        Err(_) => {
            return Err(FsError::Node);
        },
    };
    proof {
        lemma_first_node(0);
        assert(tree_nodes(tree) == with_node(Seq::empty(), -1, 0));
        assert(said.take(0) == Seq::<Meaning>::empty());
    }
    let mut curr = root.clone();
    let mut i: usize = 0;
    while i < parsed_lines.len()
        invariant
            i <= parsed_lines@.len(),
            said == meanings(parsed_lines@),
            well_formed(tree_nodes(tree)),
            id_slot(root) == (tree_key(tree), 0int),
            owns(tree, curr),
            session_tree(said.take(i as int)) == Some((tree_nodes(tree), id_slot(curr).1)),
        decreases parsed_lines@.len() - i,
    {
        proof {
            assert(said.take(i + 1).drop_last() == said.take(i as int));
            assert(said.take(i + 1).last() == parsed_lines@[i as int].meaning());
        }
        let ghost nodes = tree_nodes(tree);
        let ghost at = id_slot(curr).1;
        match &parsed_lines[i] {
            ParsedLine::Command(cmd) => match cmd {
                Command::Ls => {},
                Command::Cd(path) => {
                    if is_root_path(path.as_str()) {
                    } else if is_parent_path(path.as_str()) {
                        let above = match read_node(&tree, &curr) {
                            Ok((parent, _, _)) => parent,
                            Err(_) => {
                                return Err(FsError::Node);
                            },
                        };
                        match above {
                            Some(parent) => {
                                curr = parent;
                            },
                            None => {
                                proof {
                                    lemma_session_failure_stays(said, i + 1);
                                }
                                return Err(FsError::NoParent);
                            },
                        }
                    } else {
                        proof {
                            lemma_next_node(nodes, at, 0);
                        }
                        curr = match insert_node(&mut tree, 0, Some(&curr)) {
                            Ok(id) => id,
                            Err(_) => {
                                return Err(FsError::Node);
                            },
                        };
                    }
                },
            },
            ParsedLine::Entry(entry) => match entry {
                FilesystemEntry::Dir(_) => {},
                FilesystemEntry::File(size, _) => {
                    proof {
                        lemma_next_node(nodes, at, *size);
                    }
                    match insert_node(&mut tree, *size, Some(&curr)) {
                        Ok(_) => {},
                        Err(_) => {
                            return Err(FsError::Node);
                        },
                    }
                },
            },
        }
        i += 1;
    }
    assert(said.take(i as int) == said);
    Ok(DirTree { tree, root })
}

/// A line among the first `k` that cannot be followed makes the whole
/// session fail.
proof fn lemma_session_failure_stays(said: Seq<Meaning>, k: int)
    requires
        0 <= k <= said.len(),
        session_tree(said.take(k)) is None,
    ensures
        session_tree(said) is None,
    decreases said.len(),
{
    if k == said.len() {
        assert(said.take(k) == said);
    } else {
        assert(said.drop_last().take(k) == said.take(k));
        lemma_session_failure_stays(said.drop_last(), k);
    }
}

/// The size of all that is below the node of `id`, with that node itself;
/// an error where no `u64` can hold it.
fn subtree_size_of(tree: &Tree<u64>, id: &NodeId) -> (r: Result<u64, FsError>)
    requires
        well_formed(tree_nodes(*tree)),
        owns(*tree, *id),
    ensures
        match r {
            Ok(size) => size == subtree_size(tree_nodes(*tree), id_slot(*id).1),
            Err(e) => e == FsError::TooLarge && subtree_size(tree_nodes(*tree), id_slot(*id).1)
                > u64::MAX,
        },
    decreases tree_nodes(*tree).len() - id_slot(*id).1,
{
    let ghost nodes = tree_nodes(*tree);
    let ghost v = id_slot(*id).1;
    let (size, children) = match read_node(tree, id) {
        Ok((_, size, children)) => (size, children),
        Err(_) => {
            return Err(FsError::Node);
        },
    };
    let ghost kids = slot_children(nodes, v);
    assert(id_indices(children@) == kids);
    let mut total: u64 = size;
    let mut k: usize = 0;
    assert(kids.skip(0) == kids);
    while k < children.len()
        invariant
            k <= children@.len(),
            nodes == tree_nodes(*tree),
            well_formed(nodes),
            0 <= v < nodes.len(),
            v == id_slot(*id).1,
            kids == slot_children(nodes, v),
            id_indices(children@) == kids,
            forall|i: int|
                0 <= i < children@.len() ==> (#[trigger] id_slot(children@[i])).0 == tree_key(
                    *tree,
                ),
            total + subtree_sizes(nodes, v, kids.skip(k as int)) == subtree_size(nodes, v),
        decreases children@.len() - k,
    {
        let child = &children[k];
        let ghost c = id_slot(*child).1;
        proof {
            assert(c == kids[k as int]);
            assert(v < c < nodes.len());
            let rest = kids.skip(k as int);
            assert(rest[0] == c);
            assert(rest.drop_first() == kids.skip(k + 1));
            lemma_children_not_negative(nodes, v, kids.skip(k + 1));
        }
        let below = match subtree_size_of(tree, child) {
            Ok(below) => below,
            Err(e) => {
                return Err(e);
            },
        };
        total = match total.checked_add(below) {
            Some(sum) => sum,
            None => {
                return Err(FsError::TooLarge);
            },
        };
        k += 1;
    }
    assert(kids.skip(k as int) == Seq::<int>::empty());
    Ok(total)
}

/// The least of the sizes of the directories among the nodes `order` that
/// are larger than `need`; `None` where there is none. A directory is a
/// node with a child.
pub open spec fn smallest_above(
    nodes: Seq<Option<(int, u64, Seq<int>)>>,
    order: Seq<int>,
    need: int,
) -> Option<int>
    decreases order.len(),
{
    if order.len() == 0 {
        None
    } else {
        let before = smallest_above(nodes, order.drop_last(), need);
        let size = subtree_size(nodes, order.last());
        if slot_children(nodes, order.last()).len() > 0 && size > need {
            match before {
                Some(least) => if size < least {
                    Some(size)
                } else {
                    Some(least)
                },
                None => Some(size),
            }
        } else {
            before
        }
    }
}

/// The answer for a tree: the size of the smallest directory whose removal
/// leaves enough space free. The files must fit on the disk, and the space
/// that is free must not exceed the space that is needed.
pub open spec fn tree_answer(nodes: Seq<Option<(int, u64, Seq<int>)>>) -> Result<Option<int>, FsError> {
    let usage = subtree_size(nodes, 0);
    if usage > u64::MAX {
        Err(FsError::TooLarge)
    } else if usage > TOTAL_SPACE {
        Err(FsError::DiskOverfull)
    } else if TOTAL_SPACE - usage > NEEDED_SPACE {
        Err(FsError::NothingToFree)
    } else {
        Ok(smallest_above(nodes, pre_order(nodes, 0), NEEDED_SPACE - (TOTAL_SPACE - usage)))
    }
}

/// Whether the exec result `r` is the spec result `expected`.
pub open spec fn answer_is(r: Result<Option<u64>, FsError>, expected: Result<Option<int>, FsError>) -> bool {
    match r {
        Ok(Some(size)) => expected == Ok::<Option<int>, FsError>(Some(size as int)),
        Ok(None) => expected == Ok::<Option<int>, FsError>(None),
        Err(e) => expected == Err::<Option<int>, FsError>(e),
    }
}

impl DirTree {
    /// The size of all the files; an error where no `u64` can hold it.
    pub fn usage(&self) -> (r: Result<u64, FsError>)
        requires
            self.wf(),
        ensures
            match r {
                Ok(size) => size == subtree_size(self.nodes(), 0),
                Err(e) => e == FsError::TooLarge && subtree_size(self.nodes(), 0) > u64::MAX,
            },
    {
        subtree_size_of(&self.tree, &self.root)
    }

    /// The size of the smallest directory whose removal leaves enough space
    /// free.
    pub fn smallest_directory_to_free(&self) -> (r: Result<Option<u64>, FsError>)
        requires
            self.wf(),
        ensures
            answer_is(r, tree_answer(self.nodes())),
    {
        let ghost nodes = self.nodes();
        let total_size: u64 = TOTAL_SPACE;
        let needed_size: u64 = NEEDED_SPACE;
        let current_useage = match self.usage() {
            Ok(size) => size,
            Err(e) => {
                return Err(e);
            },
        };
        if current_useage > total_size {
            return Err(FsError::DiskOverfull);
        }
        let free_size = total_size - current_useage;
        if free_size > needed_size {
            return Err(FsError::NothingToFree);
        }
        let size_to_free = needed_size - free_size;
        let ids = match pre_order_ids(&self.tree, &self.root) {
            Ok(ids) => ids,
            Err(_) => {
                return Err(FsError::Node);
            },
        };
        let ghost order = pre_order(nodes, 0);
        proof {
            lemma_pre_order_in_tree(nodes, 0, Seq::empty());
            assert(order.take(0) == Seq::<int>::empty());
        }
        let mut smallest: Option<u64> = None;
        let mut k: usize = 0;
        while k < ids.len()
            invariant
                k <= ids@.len(),
                nodes == tree_nodes(self.tree),
                well_formed(nodes),
                subtree_size(nodes, 0) <= u64::MAX,
                id_indices(ids@) == order,
                forall|i: int| 0 <= i < order.len() ==> 0 <= #[trigger] order[i] < nodes.len(),
                forall|i: int|
                    0 <= i < ids@.len() ==> (#[trigger] id_slot(ids@[i])).0 == tree_key(self.tree),
                match smallest {
                    Some(least) => smallest_above(nodes, order.take(k as int), size_to_free as int)
                        == Some(least as int),
                    None => smallest_above(nodes, order.take(k as int), size_to_free as int)
                        is None,
                },
            decreases ids@.len() - k,
        {
            let id = &ids[k];
            let ghost v = id_slot(*id).1;
            proof {
                assert(v == order[k as int]);
                assert(order.take(k + 1).drop_last() == order.take(k as int));
                assert(order.take(k + 1).last() == v);
                lemma_subtree_in_tree(nodes, v);
                lemma_sizes_not_negative(nodes, v, Seq::empty());
            }
            let children = match read_node(&self.tree, id) {
                Ok((_, _, children)) => children,
                Err(_) => {
                    return Err(FsError::Node);
                },
            };
            assert(id_indices(children@) == slot_children(nodes, v));
            if children.len() > 0 {
                let size = match subtree_size_of(&self.tree, id) {
                    Ok(size) => size,
                    Err(e) => {
                        return Err(e);
                    },
                };
                if size > size_to_free {
                    smallest = match smallest {
                        Some(least) => if size < least {
                            Some(size)
                        } else {
                            Some(least)
                        },
                        None => Some(size),
                    };
                }
            }
            k += 1;
        }
        assert(order.take(k as int) == order);
        Ok(smallest)
    }
}

/// What the lines of a session say, or the index of the first line that is
/// no command and no entry.
pub open spec fn lines_meanings(ls: Seq<Seq<char>>) -> Result<Seq<Meaning>, FsError>
    decreases ls.len(),
{
    if ls.len() == 0 {
        Ok(Seq::empty())
    } else {
        match lines_meanings(ls.drop_last()) {
            Err(e) => Err(e),
            Ok(before) => match line_meaning(ls.last()) {
                None => Err(FsError::InvalidLine((ls.len() - 1) as usize)),
                Some(meaning) => Ok(before.push(meaning)),
            },
        }
    }
}

/// A line among the first `k` that says nothing makes the whole text fail.
proof fn lemma_meaning_failure_stays(ls: Seq<Seq<char>>, k: int)
    requires
        0 <= k <= ls.len(),
        lines_meanings(ls.take(k)) is Err,
    ensures
        lines_meanings(ls) == lines_meanings(ls.take(k)),
    decreases ls.len(),
{
    if k == ls.len() {
        assert(ls.take(k) == ls);
    } else {
        assert(ls.drop_last().take(k) == ls.take(k));
        lemma_meaning_failure_stays(ls.drop_last(), k);
    }
}

/// Reads the lines of a session.
pub fn parse_session(input: &str) -> (r: Result<Vec<ParsedLine>, FsError>)
    ensures
        match r {
            Ok(parsed) => lines_meanings(lines(input@)) == Ok::<Seq<Meaning>, FsError>(
                meanings(parsed@),
            ),
            Err(e) => lines_meanings(lines(input@)) == Err::<Seq<Meaning>, FsError>(e),
        },
{
    let chars = chars_of(input);
    let ranges = line_ranges(chars.as_slice());
    let ghost all = lines(input@);
    let mut parsed: Vec<ParsedLine> = Vec::new();
    let mut i: usize = 0;
    assert(all.take(0) == Seq::<Seq<char>>::empty());
    assert(meanings(parsed@) =~= Seq::<Meaning>::empty());
    while i < ranges.len()
        invariant
            i <= ranges@.len(),
            chars@ == input@,
            all == lines(input@),
            ranges_cut(chars@, ranges@, all),
            lines_meanings(all.take(i as int)) == Ok::<Seq<Meaning>, FsError>(meanings(parsed@)),
        decreases ranges@.len() - i,
    {
        let (from, to) = ranges[i];
        let line = input.substring_char(from, to);
        proof {
            assert(line@ == all[i as int]);
            assert(all.take(i + 1).drop_last() == all.take(i as int));
            assert(all.take(i + 1).last() == all[i as int]);
        }
        match parse_whole_line(line) {
            Some(found) => {
                let ghost before = parsed@;
                parsed.push(found);
                assert(meanings(parsed@) =~= meanings(before).push(found.meaning()));
            },
            None => {
                proof {
                    lemma_meaning_failure_stays(all, i + 1);
                }
                return Err(FsError::InvalidLine(i));
            },
        }
        i += 1;
    }
    assert(all.take(i as int) == all);
    Ok(parsed)
}

/// The answer for the text of a session.
pub open spec fn session_answer(input: Seq<char>) -> Result<Option<int>, FsError> {
    match lines_meanings(lines(input)) {
        Err(e) => Err(e),
        Ok(said) => match session_tree(said) {
            None => Err(FsError::NoParent),
            Some((nodes, _)) => tree_answer(nodes),
        },
    }
}

/// The size of the smallest directory of the file system of a session whose
/// removal leaves enough space free.
pub fn smallest_directory_to_free(input: &str) -> (r: Result<Option<u64>, FsError>)
    ensures
        answer_is(r, session_answer(input@)),
{
    let parsed = match parse_session(input) {
        Ok(parsed) => parsed,
        Err(e) => {
            return Err(e);
        },
    };
    let built = match construct_tree(&parsed) {
        Ok(built) => built,
        Err(e) => {
            return Err(e);
        },
    };
    built.smallest_directory_to_free()
}

} // verus!
