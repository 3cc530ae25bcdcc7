//! File selection: which entries of a source tree belong in the archive.
//!
//! A fixed set of directory names is pruned outright; a file is kept when its
//! extension is on a small allow-list, when it is the well-known lock file, or
//! when its name is a dot-free all-uppercase convention name such as `README`.

use vstd::prelude::*;
use vstd::string::StrSliceExecFns;
use vstd::string::StringExecFns;

verus! {

/// A directory whose base name matches one of these is never descended into:
/// version-control metadata, dependency caches and build output.
pub open spec fn spec_excluded_dir(name: Seq<char>) -> bool {
    ||| name == "target"@
    ||| name == ".git"@
    ||| name == ".hg"@
    ||| name == ".svn"@
    ||| name == "node_modules"@
}

/// Some position of `name` holds a `.`.
pub open spec fn has_dot(name: Seq<char>) -> bool {
    exists|i: int| 0 <= i < name.len() && name[i] == '.'
}

/// Every character of `name` is an uppercase ASCII letter.
pub open spec fn all_upper(name: Seq<char>) -> bool {
    forall|i: int| 0 <= i < name.len() ==> 'A' <= #[trigger] name[i] <= 'Z'
}

/// Index of the last `.` of `name`, if any.
pub open spec fn spec_last_dot(name: Seq<char>) -> Option<int>
    decreases name.len(),
{
    if name.len() == 0 {
        None
    } else if name.last() == '.' {
        Some(name.len() - 1)
    } else {
        spec_last_dot(name.drop_last())
    }
}

/// The extension of a base name: the part after the last `.`, provided that
/// dot is neither absent nor the leading character of the name.
pub open spec fn spec_extension(name: Seq<char>) -> Option<Seq<char>> {
    match spec_last_dot(name) {
        Some(i) => if i > 0 {
            Some(name.subrange(i + 1, name.len() as int))
        } else {
            None
        },
        None => None,
    }
}

/// The inclusion predicate on a file's base name: an allow-listed extension,
/// the lock file, or a dot-free all-uppercase convention name.
pub open spec fn spec_include(name: Seq<char>) -> bool {
    ||| spec_extension(name) == Some("rs"@)
    ||| spec_extension(name) == Some("toml"@)
    ||| name == "Cargo.lock"@
    ||| (!has_dot(name) && all_upper(name))
}

proof fn lemma_last_dot_characterization(name: Seq<char>)
    ensures
        match spec_last_dot(name) {
            Some(i) => 0 <= i < name.len() && name[i] == '.' && (forall|k: int|
                i < k < name.len() ==> name[k] != '.'),
            None => forall|k: int| 0 <= k < name.len() ==> name[k] != '.',
        },
    decreases name.len(),
{
    if name.len() > 0 && name.last() != '.' {
        lemma_last_dot_characterization(name.drop_last());
        assert forall|k: int| 0 <= k < name.len() - 1 implies name.drop_last()[k] == name[k] by {}
    }
}

proof fn lemma_last_dot_at(name: Seq<char>, j: int)
    requires
        0 <= j < name.len(),
        name[j] == '.',
        forall|k: int| j < k < name.len() ==> name[k] != '.',
    ensures
        spec_last_dot(name) == Some(j),
    decreases name.len(),
{
    if j < name.len() - 1 {
        lemma_last_dot_at(name.drop_last(), j);
    }
}

proof fn lemma_last_dot_none(name: Seq<char>)
    requires
        forall|k: int| 0 <= k < name.len() ==> name[k] != '.',
    ensures
        spec_last_dot(name) is None,
    decreases name.len(),
{
    if name.len() > 0 {
        lemma_last_dot_none(name.drop_last());
    }
}

/// Character-for-character string comparison.
fn str_eq_str(a: &str, b: &str) -> (r: bool)
    ensures
        r == (a@ == b@),
{
    let alen = a.unicode_len();
    let blen = b.unicode_len();
    if alen != blen {
        return false;
    }
    let mut i: usize = 0;
    while i < alen
        invariant
            0 <= i <= alen,
            alen == a@.len(),
            alen == b@.len(),
            forall|k: int| 0 <= k < i ==> a@[k] == b@[k],
        decreases alen - i,
    {
        if a.get_char(i) != b.get_char(i) {
            return false;
        }
        i += 1;
    }
    proof {
        assert(a@ =~= b@);
    }
    true
}

/// Position of the last `.` of `name`, scanning from the end.
fn find_last_dot(name: &str) -> (r: Option<usize>)
    ensures
        match r {
            Some(i) => spec_last_dot(name@) == Some(i as int),
            None => spec_last_dot(name@) is None,
        },
{
    let len = name.unicode_len();
    let mut i: usize = len;
    while i > 0
        invariant
            0 <= i <= len,
            len == name@.len(),
            forall|k: int| i <= k < len ==> name@[k] != '.',
        decreases i,
    {
        if name.get_char(i - 1) == '.' {
            proof {
                lemma_last_dot_at(name@, i - 1);
            }
            return Some(i - 1);
        }
        i -= 1;
    }
    proof {
        lemma_last_dot_none(name@);
    }
    None
}

/// Whether every character of `name` is an uppercase ASCII letter; such a
/// name also holds no `.`.
fn is_upper_no_dot(name: &str) -> (r: bool)
    ensures
        r == (!has_dot(name@) && all_upper(name@)),
{
    let len = name.unicode_len();
    let mut i: usize = 0;
    while i < len
        invariant
            0 <= i <= len,
            len == name@.len(),
            forall|k: int| 0 <= k < i ==> 'A' <= #[trigger] name@[k] <= 'Z',
        decreases len - i,
    {
        let c = name.get_char(i);
        if !('A' <= c && c <= 'Z') {
            return false;
        }
        i += 1;
    }
    proof {
        assert(!has_dot(name@)) by {
            if has_dot(name@) {
                let j = choose|j: int| 0 <= j < name@.len() && name@[j] == '.';
                assert('A' <= name@[j] <= 'Z');
            }
        }
    }
    true
}

/// Whether a directory of this base name is pruned from the walk.
pub fn is_excluded_dir(name: &str) -> (r: bool)
    ensures
        r == spec_excluded_dir(name@),
{
    str_eq_str(name, "target") || str_eq_str(name, ".git") || str_eq_str(name, ".hg")
        || str_eq_str(name, ".svn") || str_eq_str(name, "node_modules")
}

/// A file chosen for the archive: its entry name (the relative path under
/// which it was found) and its raw content.
pub struct SourceFile {
    pub name: String,
    pub content: Vec<u8>,
}

impl View for SourceFile {
    type V = (Seq<char>, Seq<u8>);

    open spec fn view(&self) -> Self::V {
        (self.name@, self.content@)
    }
}

/// The entry names and contents of a sequence of selected files.
pub open spec fn entries_view(s: Seq<SourceFile>) -> Seq<(Seq<char>, Seq<u8>)> {
    s.map_values(|f: SourceFile| f@)
}

/// A directory tree as the walk sees it: regular files with their content,
/// directories with their children, and symbolic links, which are opaque to
/// the walk because it never follows them.
pub enum FsNode {
    File { name: String, content: Vec<u8> },
    Dir { name: String, children: Vec<FsNode> },
    Symlink { name: String },
}

/// Relative path of a child named `name` under `prefix`.
pub open spec fn spec_path_join(prefix: Seq<char>, name: Seq<char>) -> Seq<char> {
    if prefix.len() == 0 {
        name
    } else {
        prefix + "/"@ + name
    }
}

/// The files selected under one node: an included regular file yields its one
/// entry; an excluded directory and a symbolic link yield nothing; any other
/// directory yields its children's entries in order.
pub open spec fn spec_select(node: FsNode, prefix: Seq<char>) -> Seq<(Seq<char>, Seq<u8>)>
    decreases node,
{
    match node {
        FsNode::File { name, content } => if spec_include(name@) {
            seq![(spec_path_join(prefix, name@), content@)]
        } else {
            Seq::empty()
        },
        FsNode::Dir { name, children } => if spec_excluded_dir(name@) {
            Seq::empty()
        } else {
            spec_select_seq(children@, spec_path_join(prefix, name@))
        },
        FsNode::Symlink { .. } => Seq::empty(),
    }
}

/// The files selected under a sequence of sibling nodes, in order.
pub open spec fn spec_select_seq(nodes: Seq<FsNode>, prefix: Seq<char>) -> Seq<
    (Seq<char>, Seq<u8>),
>
    decreases nodes,
{
    if nodes.len() == 0 {
        Seq::empty()
    } else {
        spec_select_seq(nodes.drop_last(), prefix) + spec_select(nodes.last(), prefix)
    }
}

/// Whether a file of this base name belongs in the archive.
pub fn include_file(name: &str) -> (r: bool)
    ensures
        r == spec_include(name@),
{
    proof {
        lemma_last_dot_characterization(name@);
    }
    let ext_matches = match find_last_dot(name) {
        Some(i) => {
            if i > 0 {
                let len = name.unicode_len();
                let ext = name.substring_char(i + 1, len);
                str_eq_str(ext, "rs") || str_eq_str(ext, "toml")
            } else {
                false
            }
        },
        None => false,
    };
    if ext_matches {
        true
    } else {
        str_eq_str(name, "Cargo.lock") || is_upper_no_dot(name)
    }
}

/// Whether the walk skips a node outright: a directory whose name is on the
/// excluded set, or a symbolic link, which is never followed.
pub open spec fn spec_skipped(node: FsNode) -> bool {
    match node {
        FsNode::File { .. } => false,
        FsNode::Dir { name, .. } => spec_excluded_dir(name@),
        FsNode::Symlink { .. } => true,
    }
}

/// The siblings that the walk does not skip outright.
pub open spec fn spec_visible_siblings(nodes: Seq<FsNode>) -> Seq<FsNode> {
    nodes.filter(|n: FsNode| !spec_skipped(n))
}

/// Pruning: a directory whose base name is on the excluded set yields no
/// entry at all, wherever in the tree it stands and whatever its subtree
/// holds — the walk never descends into it.
pub proof fn lemma_excluded_dir_pruned(name: String, children: Vec<FsNode>, prefix: Seq<char>)
    requires
        spec_excluded_dir(name@),
    ensures
        spec_select(FsNode::Dir { name, children }, prefix) == Seq::<(Seq<char>, Seq<u8>)>::empty(),
{
}

/// A symbolic link is never traversed: it yields no entry, whatever it points
/// at — so a link into an excluded directory, or back at an ancestor, can
/// cause neither extra entries nor unbounded descent.
pub proof fn lemma_symlink_never_selected(name: String, prefix: Seq<char>)
    ensures
        spec_select(FsNode::Symlink { name }, prefix) == Seq::<(Seq<char>, Seq<u8>)>::empty(),
{
}

/// Among any siblings, the skipped nodes — excluded directories and symbolic
/// links — contribute nothing: the selection is that of the others alone.
pub proof fn lemma_skipped_siblings_contribute_nothing(nodes: Seq<FsNode>, prefix: Seq<char>)
    ensures
        spec_select_seq(nodes, prefix) == spec_select_seq(spec_visible_siblings(nodes), prefix),
    decreases nodes.len(),
{
    reveal(Seq::filter);
    if nodes.len() > 0 {
        lemma_skipped_siblings_contribute_nothing(nodes.drop_last(), prefix);
        let last = nodes.last();
        if spec_skipped(last) {
            assert(spec_select(last, prefix) =~= Seq::<(Seq<char>, Seq<u8>)>::empty());
            assert(spec_select_seq(nodes, prefix) =~= spec_select_seq(
                nodes.drop_last(),
                prefix,
            ));
            assert(spec_visible_siblings(nodes) == spec_visible_siblings(nodes.drop_last()));
        } else {
            let f = spec_visible_siblings(nodes);
            assert(f == spec_visible_siblings(nodes.drop_last()).push(last));
            assert(f.drop_last() =~= spec_visible_siblings(nodes.drop_last()));
            assert(f.last() == last);
        }
    }
}

/// No two entries share a name.
pub open spec fn distinct_names(s: Seq<(Seq<char>, Seq<u8>)>) -> bool {
    forall|i: int, j: int| 0 <= i < j < s.len() ==> s[i].0 != s[j].0
}

/// No `/` occurs in `name`.
pub open spec fn slash_free(name: Seq<char>) -> bool {
    forall|i: int| 0 <= i < name.len() ==> name[i] != '/'
}

/// The base name of a node.
pub open spec fn spec_name(node: FsNode) -> Seq<char> {
    match node {
        FsNode::File { name, .. } => name@,
        FsNode::Dir { name, .. } => name@,
        FsNode::Symlink { name } => name@,
    }
}

/// A node as a real file system yields it: its base name is nonempty and
/// holds no `/`, and the children of every directory bear pairwise distinct
/// names.
pub open spec fn wf_node(node: FsNode) -> bool
    decreases node,
{
    &&& spec_name(node).len() > 0
    &&& slash_free(spec_name(node))
    &&& match node {
        FsNode::Dir { children, .. } => wf_siblings(children@),
        _ => true,
    }
}

/// Well-formed siblings: each node well formed, their names pairwise
/// distinct.
pub open spec fn wf_siblings(nodes: Seq<FsNode>) -> bool
    decreases nodes,
{
    &&& (forall|i: int| 0 <= i < nodes.len() ==> wf_node(#[trigger] nodes[i]))
    &&& (forall|i: int, j: int|
        0 <= i < j < nodes.len() ==> spec_name(nodes[i]) != spec_name(nodes[j]))
}

/// The lead every path under `prefix` shares: nothing for the empty prefix,
/// else the prefix followed by `/`.
pub open spec fn spec_q(prefix: Seq<char>) -> Seq<char> {
    if prefix.len() == 0 {
        Seq::empty()
    } else {
        prefix + "/"@
    }
}

proof fn lemma_slash()
    ensures
        "/"@ =~= seq!['/'],
{
    reveal_strlit("/");
}

proof fn lemma_path_join_q(prefix: Seq<char>, name: Seq<char>)
    ensures
        spec_path_join(prefix, name) == spec_q(prefix) + name,
{
    assert(spec_path_join(prefix, name) =~= spec_q(prefix) + name);
}

/// `p` is a path lying under the component `name` below the shared lead `q`:
/// it starts with `q + name` and either ends there or continues with a `/`.
pub open spec fn rooted(p: Seq<char>, q: Seq<char>, name: Seq<char>) -> bool {
    &&& p.len() >= q.len() + name.len()
    &&& p.subrange(0, (q.len() + name.len()) as int) == q + name
    &&& (p.len() == q.len() + name.len() || p[(q.len() + name.len()) as int] == '/')
}

proof fn lemma_rooted_same_name_le(p: Seq<char>, q: Seq<char>, a: Seq<char>, b: Seq<char>)
    requires
        rooted(p, q, a),
        rooted(p, q, b),
        slash_free(b),
        a.len() > 0,
        b.len() > 0,
        a.len() <= b.len(),
    ensures
        a == b,
{
    let la = (q.len() + a.len()) as int;
    let lb = (q.len() + b.len()) as int;
    assert forall|i: int| 0 <= i < a.len() implies a[i] == b[i] by {
        assert(p.subrange(0, la)[q.len() + i] == (q + a)[q.len() + i]);
        assert(p.subrange(0, lb)[q.len() + i] == (q + b)[q.len() + i]);
    }
    if a.len() < b.len() {
        assert(p.subrange(0, lb)[la] == (q + b)[la]);
        assert(p[la] == b[a.len() as int]);
        assert(b[a.len() as int] != '/');
        assert(p.len() >= lb > la);
        assert(p[la] == '/');
        assert(false);
    }
    assert(a =~= b);
}

proof fn lemma_rooted_same_name(p: Seq<char>, q: Seq<char>, a: Seq<char>, b: Seq<char>)
    requires
        rooted(p, q, a),
        rooted(p, q, b),
        slash_free(a),
        slash_free(b),
        a.len() > 0,
        b.len() > 0,
    ensures
        a == b,
{
    if a.len() <= b.len() {
        lemma_rooted_same_name_le(p, q, a, b);
    } else {
        lemma_rooted_same_name_le(p, q, b, a);
    }
}

proof fn lemma_select_rooted(node: FsNode, prefix: Seq<char>)
    requires
        wf_node(node),
    ensures
        forall|k: int|
            0 <= k < spec_select(node, prefix).len() ==> rooted(
                #[trigger] spec_select(node, prefix)[k].0,
                spec_q(prefix),
                spec_name(node),
            ),
    decreases node,
{
    lemma_slash();
    lemma_path_join_q(prefix, spec_name(node));
    let q = spec_q(prefix);
    match node {
        FsNode::File { name, .. } => {
            if spec_include(name@) {
                let p = spec_path_join(prefix, name@);
                assert(p.subrange(0, p.len() as int) =~= p);
            }
        },
        FsNode::Dir { name, children } => {
            if !spec_excluded_dir(name@) {
                let prefix2 = spec_path_join(prefix, name@);
                assert(prefix2.len() > 0);
                let q2 = spec_q(prefix2);
                assert(q2 =~= q + name@ + seq!['/']);
                lemma_select_seq_rooted(children@, prefix2);
                let s = spec_select(node, prefix);
                assert(s == spec_select_seq(children@, prefix2));
                assert forall|k: int| 0 <= k < s.len() implies rooted(
                    s[k].0,
                    q,
                    spec_name(node),
                ) by {
                    let e = spec_select_seq(children@, prefix2)[k].0;
                    assert(s[k].0 == e);
                    let m = choose|m: int|
                        0 <= m < children@.len() && rooted(e, q2, spec_name(children@[m]));
                    assert(wf_node(children@[m]));
                    let cn = spec_name(children@[m]);
                    assert(cn.len() > 0);
                    let ln = (q.len() + name@.len()) as int;
                    assert(e.len() >= q2.len() + cn.len());
                    assert forall|i: int| 0 <= i < ln implies e[i] == (q + name@)[i] by {
                        assert(e.subrange(0, (q2.len() + cn.len()) as int)[i] == (q2 + cn)[i]);
                        assert((q2 + cn)[i] == q2[i]);
                        assert(q2[i] == (q + name@)[i]);
                    }
                    assert(e.subrange(0, ln) =~= q + name@);
                    assert(e.subrange(0, (q2.len() + cn.len()) as int)[ln] == (q2 + cn)[ln]);
                    assert((q2 + cn)[ln] == q2[ln]);
                    assert(q2[ln] == '/');
                    assert(e[ln] == '/');
                }
            }
        },
        FsNode::Symlink { .. } => {},
    }
}

proof fn lemma_select_seq_rooted(nodes: Seq<FsNode>, prefix: Seq<char>)
    requires
        wf_siblings(nodes),
    ensures
        forall|k: int|
            0 <= k < spec_select_seq(nodes, prefix).len() ==> exists|m: int|
                0 <= m < nodes.len() && rooted(
                    #[trigger] spec_select_seq(nodes, prefix)[k].0,
                    spec_q(prefix),
                    spec_name(nodes[m]),
                ),
    decreases nodes,
{
    if nodes.len() > 0 {
        let rest = nodes.drop_last();
        assert(forall|i: int| 0 <= i < rest.len() ==> rest[i] == nodes[i]);
        assert(wf_siblings(rest));
        lemma_select_seq_rooted(rest, prefix);
        lemma_select_rooted(nodes.last(), prefix);
        let s1 = spec_select_seq(rest, prefix);
        let s2 = spec_select(nodes.last(), prefix);
        let s = spec_select_seq(nodes, prefix);
        assert(s == s1 + s2);
        assert forall|k: int| #![trigger s[k]] 0 <= k < s.len() implies exists|m: int|
            0 <= m < nodes.len() && rooted(s[k].0, spec_q(prefix), spec_name(nodes[m])) by {
            if k < s1.len() {
                let e = spec_select_seq(rest, prefix)[k].0;
                assert(s[k].0 == e);
                let m = choose|m: int|
                    0 <= m < rest.len() && rooted(e, spec_q(prefix), spec_name(rest[m]));
                assert(rooted(s[k].0, spec_q(prefix), spec_name(nodes[m])));
            } else {
                let e = spec_select(nodes.last(), prefix)[k - s1.len()].0;
                assert(s[k].0 == e);
                let last: int = nodes.len() - 1;
                assert(rooted(s[k].0, spec_q(prefix), spec_name(nodes[last])));
            }
        }
    }
}

/// One selection run never emits one entry name twice: for a directory whose
/// children are well formed, the selected relative paths are pairwise
/// distinct, so the entry map loses nothing.
pub proof fn lemma_select_seq_distinct(nodes: Seq<FsNode>, prefix: Seq<char>)
    requires
        wf_siblings(nodes),
    ensures
        distinct_names(spec_select_seq(nodes, prefix)),
    decreases nodes,
{
    if nodes.len() > 0 {
        let rest = nodes.drop_last();
        assert(forall|i: int| 0 <= i < rest.len() ==> rest[i] == nodes[i]);
        assert(wf_siblings(rest));
        lemma_select_seq_distinct(rest, prefix);
        lemma_select_distinct(nodes.last(), prefix);
        lemma_select_seq_rooted(rest, prefix);
        lemma_select_rooted(nodes.last(), prefix);
        let s1 = spec_select_seq(rest, prefix);
        let s2 = spec_select(nodes.last(), prefix);
        let s = spec_select_seq(nodes, prefix);
        assert(s == s1 + s2);
        let last: int = nodes.len() - 1;
        assert forall|i: int, j: int| 0 <= i < j < s.len() implies s[i].0 != s[j].0 by {
            if j < s1.len() {
                assert(s[i] == s1[i] && s[j] == s1[j]);
            } else if i >= s1.len() {
                assert(s[i] == s2[i - s1.len()] && s[j] == s2[j - s1.len()]);
            } else {
                assert(s[i] == s1[i] && s[j] == s2[j - s1.len()]);
                let e1 = spec_select_seq(rest, prefix)[i].0;
                let e2 = spec_select(nodes.last(), prefix)[j - s1.len()].0;
                assert(s[i].0 == e1 && s[j].0 == e2);
                let m = choose|m: int|
                    0 <= m < rest.len() && rooted(e1, spec_q(prefix), spec_name(rest[m]));
                assert(rooted(s[j].0, spec_q(prefix), spec_name(nodes[last])));
                if s[i].0 == s[j].0 {
                    assert(wf_node(nodes[m]) && wf_node(nodes[last]));
                    lemma_rooted_same_name(
                        s[i].0,
                        spec_q(prefix),
                        spec_name(nodes[m]),
                        spec_name(nodes[last]),
                    );
                    assert(spec_name(nodes[m]) != spec_name(nodes[last]));
                    assert(false);
                }
            }
        }
    }
}

/// The per-node form of the same law: a well-formed node's selection holds
/// pairwise distinct entry names.
pub proof fn lemma_select_distinct(node: FsNode, prefix: Seq<char>)
    requires
        wf_node(node),
    ensures
        distinct_names(spec_select(node, prefix)),
    decreases node,
{
    match node {
        FsNode::File { .. } => {},
        FsNode::Dir { name, children } => {
            if !spec_excluded_dir(name@) {
                lemma_select_seq_distinct(children@, spec_path_join(prefix, name@));
            }
        },
        FsNode::Symlink { .. } => {},
    }
}

/// A file whose extension is on the allow-list is included, whatever the rest
/// of its base name looks like.
pub proof fn lemma_extension_included(name: Seq<char>)
    requires
        spec_extension(name) == Some("rs"@) || spec_extension(name) == Some("toml"@),
    ensures
        spec_include(name),
{
}

/// A file with no extension is included exactly when its base name is the
/// lock file, or holds no dot and is entirely uppercase ASCII.
pub proof fn lemma_no_extension_rule(name: Seq<char>)
    requires
        spec_extension(name) is None,
    ensures
        spec_include(name) <==> (name == "Cargo.lock"@ || (!has_dot(name) && all_upper(name))),
{
}

/// An included file's entry carries its content verbatim, under its relative
/// path as the entry name.
pub proof fn lemma_file_content_verbatim(name: String, content: Vec<u8>, prefix: Seq<char>)
    requires
        spec_include(name@),
    ensures
        spec_select(FsNode::File { name, content }, prefix) == seq![
            (spec_path_join(prefix, name@), content@),
        ],
{
}

/// The build-system notification line naming one observed dependency, so a
/// later change to it invalidates the cached build output.
pub fn rerun_directive(path: &str) -> (r: String)
    ensures
        r@ == "cargo:rerun-if-changed="@ + path@,
{
    let mut s = String::from_str("cargo:rerun-if-changed=");
    s.append(path);
    s
}

/// Copy a byte buffer.
pub fn clone_bytes(v: &Vec<u8>) -> (r: Vec<u8>)
    ensures
        r@ == v@,
{
    let mut r: Vec<u8> = Vec::new();
    let mut i: usize = 0;
    while i < v.len()
        invariant
            0 <= i <= v.len(),
            r@ == v@.take(i as int),
        decreases v.len() - i,
    {
        let b = v[i];
        r.push(b);
        proof {
            assert(r@ =~= v@.take(i + 1));
        }
        i += 1;
    }
    proof {
        assert(v@.take(v@.len() as int) =~= v@);
    }
    r
}

/// Join `prefix` and `name` with a `/`, or return `name` alone when the
/// prefix is empty.
fn path_join(prefix: &str, name: &str) -> (r: String)
    ensures
        r@ == spec_path_join(prefix@, name@),
{
    if prefix.is_empty() {
        name.to_owned()
    } else {
        let mut s = prefix.to_owned();
        s.append("/");
        s.append(name);
        s
    }
}

proof fn lemma_select_seq_take_step(nodes: Seq<FsNode>, prefix: Seq<char>, i: int)
    requires
        0 <= i < nodes.len(),
    ensures
        spec_select_seq(nodes.take(i + 1), prefix) == spec_select_seq(nodes.take(i), prefix)
            + spec_select(nodes[i], prefix),
{
    let t = nodes.take(i + 1);
    assert(t.drop_last() =~= nodes.take(i));
    assert(t.last() == nodes[i]);
}

/// Append to `out` the files selected under `node`, each named relative to
/// `prefix`.
pub fn select_node(node: &FsNode, prefix: &str, out: &mut Vec<SourceFile>)
    ensures
        entries_view(final(out)@) == entries_view(old(out)@) + spec_select(*node, prefix@),
    decreases *node,
{
    match node {
        FsNode::File { name, content } => {
            if include_file(name.as_str()) {
                let path = path_join(prefix, name.as_str());
                let file = SourceFile { name: path, content: clone_bytes(content) };
                out.push(file);
                proof {
                    assert(entries_view(out@) =~= entries_view(old(out)@) + spec_select(
                        *node,
                        prefix@,
                    ));
                }
            } else {
                proof {
                    assert(entries_view(out@) =~= entries_view(old(out)@) + spec_select(
                        *node,
                        prefix@,
                    ));
                }
            }
        },
        FsNode::Dir { name, children } => {
            if !is_excluded_dir(name.as_str()) {
                let child_prefix = path_join(prefix, name.as_str());
                let mut i: usize = 0;
                while i < children.len()
                    invariant
                        0 <= i <= children.len(),
                        (*node == FsNode::Dir { name: *name, children: *children }),
                        child_prefix@ == spec_path_join(prefix@, name@),
                        entries_view(out@) == entries_view(old(out)@) + spec_select_seq(
                            children@.take(i as int),
                            child_prefix@,
                        ),
                    decreases children.len() - i,
                {
                    proof {
                        assert((*node == FsNode::Dir { name: *name, children: *children }));
                        assert(node->Dir_children == *children);
                        assert(decreases_to!(*node => node->Dir_children));
                        assert(decreases_to!(*children => children[i as int]));
                    }
                    select_node(&children[i], child_prefix.as_str(), out);
                    proof {
                        lemma_select_seq_take_step(children@, child_prefix@, i as int);
                    }
                    i += 1;
                }
                proof {
                    assert(children@.take(children@.len() as int) =~= children@);
                }
            } else {
                proof {
                    assert(entries_view(out@) =~= entries_view(old(out)@) + spec_select(
                        *node,
                        prefix@,
                    ));
                }
            }
        },
        FsNode::Symlink { .. } => {
            proof {
                assert(entries_view(out@) =~= entries_view(old(out)@) + spec_select(
                    *node,
                    prefix@,
                ));
            }
        },
    }
}

/// Select the files of a whole tree: the entry names start at the root node's
/// own name, so a root named `""` yields paths relative to the root.
pub fn select_tree(root: &FsNode) -> (r: Vec<SourceFile>)
    ensures
        entries_view(r@) == spec_select(*root, Seq::<char>::empty()),
{
    let mut out: Vec<SourceFile> = Vec::new();
    let prefix = "";
    proof {
        reveal_strlit("");
        assert(prefix@ =~= Seq::<char>::empty());
    }
    select_node(root, prefix, &mut out);
    proof {
        assert(entries_view(out@) =~= spec_select(*root, Seq::<char>::empty()));
    }
    out
}

} // verus!

