use vstd::prelude::*;
use vstd::string::StrSliceExecFns;
use vstd::string::StringExecFns;

use vstd::multiset::Multiset;

use crate::projects::get_cleanable_dirs;
use crate::projects::names_of;
use crate::projects::spec_rules;
use crate::projects::spec_type_order;
use crate::projects::spec_validator_passes;
use crate::projects::str_eq;
use crate::projects::validator_passes;
use crate::projects::CleanableDir;
use crate::projects::ProjectType;

verus! {

/// An in-memory picture of one file-system entry: a regular file with its
/// byte length, or a directory with its children. Symlinks and special files
/// are not represented; the walk that builds the picture leaves them out,
/// together with anything it cannot read.
pub enum FsNode {
    File { name: String, size: u64 },
    Dir { name: String, entries: Vec<FsNode> },
}

/// The basename of a node.
pub open spec fn node_name(n: FsNode) -> Seq<char> {
    match n {
        FsNode::File { name, .. } => name@,
        FsNode::Dir { name, .. } => name@,
    }
}

/// The children of a node; empty for a regular file.
pub open spec fn node_entries(n: FsNode) -> Seq<FsNode> {
    match n {
        FsNode::File { .. } => Seq::empty(),
        FsNode::Dir { entries, .. } => entries@,
    }
}

/// Total bytes of regular files in the nodes `s[i..]`, each taken with its
/// whole subtree.
pub open spec fn size_from(s: Seq<FsNode>, i: int) -> nat
    decreases s, s.len() - i,
{
    if i < 0 || i >= s.len() {
        0
    } else {
        node_size(s[i]) + size_from(s, i + 1)
    }
}

/// Total bytes of regular files in the subtree rooted at `n`.
pub open spec fn node_size(n: FsNode) -> nat
    decreases n, 0int,
{
    match n {
        FsNode::File { size, .. } => size as nat,
        FsNode::Dir { entries, .. } => size_from(entries@, 0),
    }
}

/// The names of the nodes of `s`, in order.
pub open spec fn spec_names(s: Seq<FsNode>) -> Seq<Seq<char>> {
    s.map_values(|n: FsNode| node_name(n))
}

/// Splitting the sum at any index within range.
proof fn lemma_size_from_split(s: Seq<FsNode>, i: int, j: int)
    requires
        0 <= i <= j <= s.len(),
    ensures
        size_from(s, i) >= size_from(s, j),
    decreases j - i,
{
    if i < j {
        lemma_size_from_split(s, i + 1, j);
    }
}

/// One directory entry, found by the scanner: where it lies (as path
/// components below the scanned root), why it is disposable, and how many
/// bytes its subtree holds.
#[derive(Debug, Clone)]
pub struct FoundDir {
    pub path: Vec<String>,
    pub project_type: ProjectType,
    pub size_bytes: u64,
}

/// The mathematical value of a `FoundDir`.
pub ghost struct FoundDirV {
    pub path: Seq<Seq<char>>,
    pub project_type: ProjectType,
    pub size_bytes: u64,
}

impl View for FoundDir {
    type V = FoundDirV;

    open spec fn view(&self) -> FoundDirV {
        FoundDirV {
            path: names_of(self.path@),
            project_type: self.project_type,
            size_bytes: self.size_bytes,
        }
    }
}

/// The mathematical values of a list of found directories.
pub open spec fn views_of(s: Seq<FoundDir>) -> Seq<FoundDirV> {
    s.map_values(|d: FoundDir| d@)
}

/// Collects the names of the nodes of `entries`, in order.
pub fn entry_names(entries: &Vec<FsNode>) -> (r: Vec<String>)
    ensures
        names_of(r@) == spec_names(entries@),
{
    let mut r: Vec<String> = Vec::new();
    let mut i: usize = 0;
    while i < entries.len()
        invariant
            i <= entries.len(),
            names_of(r@).len() == i,
            forall|j: int| 0 <= j < i ==> names_of(r@)[j] == spec_names(entries@)[j],
        decreases entries.len() - i,
    {
        let name: String = match &entries[i] {
            FsNode::File { name, .. } => name.clone(),
            FsNode::Dir { name, .. } => name.clone(),
        };
        r.push(name);
        i += 1;
    }
    proof {
        assert(names_of(r@) =~= spec_names(entries@));
    }
    r
}

/// Sums the byte length of every regular file in the subtrees of `entries`.
pub fn dir_size(entries: &Vec<FsNode>) -> (r: u64)
    requires
        size_from(entries@, 0) <= u64::MAX,
    ensures
        r as nat == size_from(entries@, 0),
    decreases entries@,
{
    let mut acc: u64 = 0;
    let mut i: usize = 0;
    while i < entries.len()
        invariant
            i <= entries.len(),
            size_from(entries@, 0) <= u64::MAX,
            acc + size_from(entries@, i as int) == size_from(entries@, 0),
        decreases entries.len() - i,
    {
        let node = &entries[i];
        proof {
            assert(size_from(entries@, i as int) == node_size(entries@[i as int]) + size_from(
                entries@,
                i + 1,
            ));
        }
        match node {
            FsNode::File { size, .. } => {
                proof {
                    assert(node_size(entries@[i as int]) == *size as nat);
                }
                acc = acc + *size;
            },
            FsNode::Dir { entries: ch, .. } => {
                proof {
                    assert(node_size(entries@[i as int]) == size_from(ch@, 0));
                    assert(decreases_to!(entries@ => entries@[i as int]));
                }
                let sub = dir_size(ch);
                acc = acc + sub;
            },
        }
        i += 1;
    }
    acc
}

/// The decimal digit characters.
pub open spec fn spec_digit_char(d: int) -> char {
    if d == 0 {
        '0'
    } else if d == 1 {
        '1'
    } else if d == 2 {
        '2'
    } else if d == 3 {
        '3'
    } else if d == 4 {
        '4'
    } else if d == 5 {
        '5'
    } else if d == 6 {
        '6'
    } else if d == 7 {
        '7'
    } else if d == 8 {
        '8'
    } else {
        '9'
    }
}

/// Decimal notation of a non-negative integer, most significant digit first.
pub open spec fn spec_dec(n: int) -> Seq<char>
    decreases n,
{
    if n < 10 {
        seq![spec_digit_char(n)]
    } else {
        spec_dec(n / 10).push(spec_digit_char(n % 10))
    }
}

/// The whole-and-tenths notation of `b` bytes measured in `unit`s, rounded
/// to the nearest tenth (half away from zero).
pub open spec fn spec_scaled(b: int, unit: int) -> Seq<char> {
    let t = (10 * b + unit / 2) / unit;
    spec_dec(t / 10) + seq!['.'] + seq![spec_digit_char(t % 10)]
}

/// Human-readable binary-prefix notation: whole bytes below 1024, otherwise
/// the largest applicable unit among KB, MB and GB with one decimal place.
pub open spec fn spec_format_size(bytes: u64) -> Seq<char> {
    let b = bytes as int;
    if b >= 1073741824 {
        spec_scaled(b, 1073741824) + " GB"@
    } else if b >= 1048576 {
        spec_scaled(b, 1048576) + " MB"@
    } else if b >= 1024 {
        spec_scaled(b, 1024) + " KB"@
    } else {
        spec_dec(b) + " B"@
    }
}

/// A one-character string for the digit `d`.
fn digit_str(d: u64) -> (r: &'static str)
    requires
        d < 10,
    ensures
        r@ == seq![spec_digit_char(d as int)],
{
    proof {
        reveal_strlit("0");
        reveal_strlit("1");
        reveal_strlit("2");
        reveal_strlit("3");
        reveal_strlit("4");
        reveal_strlit("5");
        reveal_strlit("6");
        reveal_strlit("7");
        reveal_strlit("8");
        reveal_strlit("9");
    }
    let r = match d {
        0 => "0",
        1 => "1",
        2 => "2",
        3 => "3",
        4 => "4",
        5 => "5",
        6 => "6",
        7 => "7",
        8 => "8",
        _ => "9",
    };
    proof {
        assert(r@ =~= seq![spec_digit_char(d as int)]);
    }
    r
}

/// Writes `n` in decimal notation.
fn u64_to_dec(n: u64) -> (r: String)
    ensures
        r@ == spec_dec(n as int),
    decreases n,
{
    if n < 10 {
        let mut s = String::new();
        s.append(digit_str(n));
        proof {
            assert(s@ =~= spec_dec(n as int));
        }
        s
    } else {
        let mut s = u64_to_dec(n / 10);
        s.append(digit_str(n % 10));
        proof {
            assert(s@ =~= spec_dec(n as int));
        }
        s
    }
}

/// Renders a byte count in human-readable binary-prefix notation.
pub fn format_size(bytes: u64) -> (r: String)
    ensures
        r@ == spec_format_size(bytes),
{
    let kb: u64 = 1024;
    let mb: u64 = 1048576;
    let gb: u64 = 1073741824;
    if bytes >= gb {
        let mut s = format_scaled(bytes, gb);
        s.append(" GB");
        s
    } else if bytes >= mb {
        let mut s = format_scaled(bytes, mb);
        s.append(" MB");
        s
    } else if bytes >= kb {
        let mut s = format_scaled(bytes, kb);
        s.append(" KB");
        s
    } else {
        let mut s = u64_to_dec(bytes);
        s.append(" B");
        s
    }
}

/// Renders `bytes` measured in `unit`s with one decimal place.
fn format_scaled(bytes: u64, unit: u64) -> (r: String)
    requires
        1024 <= unit,
        unit % 2 == 0,
    ensures
        r@ == spec_scaled(bytes as int, unit as int),
{
    let t128: u128 = (10 * (bytes as u128) + (unit as u128) / 2) / (unit as u128);
    proof {
        assert(t128 == (10 * (bytes as int) + (unit as int) / 2) / (unit as int)) by (
        nonlinear_arith)
            requires
                t128 == ((10 * (bytes as u128) + (unit as u128) / 2) as u128 / (unit as u128)),
                1024 <= unit,
                bytes <= u64::MAX,
        ;
        assert(t128 <= 10 * (bytes as int) / 1024 + 1) by (nonlinear_arith)
            requires
                t128 == (10 * (bytes as int) + (unit as int) / 2) / (unit as int),
                1024 <= unit as int,
                unit % 2 == 0,
                0 <= bytes,
        ;
    }
    let t: u64 = t128 as u64;
    let whole = t / 10;
    let frac = t % 10;
    let mut s = u64_to_dec(whole);
    s.append(".");
    let ds = digit_str(frac);
    s.append(ds);
    proof {
        reveal_strlit(".");
        assert(s@ =~= spec_scaled(bytes as int, unit as int));
    }
    s
}

impl FoundDir {
    /// The entry's size in human-readable notation.
    pub fn size_human(&self) -> (r: String)
        ensures
            r@ == spec_format_size(self.size_bytes),
    {
        format_size(self.size_bytes)
    }

    /// A copy with the same mathematical value.
    pub fn duplicate(&self) -> (r: FoundDir)
        ensures
            r@ == self@,
    {
        FoundDir {
            path: clone_path(&self.path),
            project_type: self.project_type,
            size_bytes: self.size_bytes,
        }
    }
}

/// Total bytes of the entries `s[i..]`.
pub open spec fn spec_total_size(s: Seq<FoundDirV>, i: int) -> nat
    decreases s.len() - i,
{
    if i < 0 || i >= s.len() {
        0
    } else {
        s[i].size_bytes as nat + spec_total_size(s, i + 1)
    }
}

/// Sums the sizes of the given entries.
pub fn total_size(dirs: &[FoundDir]) -> (r: u64)
    requires
        spec_total_size(views_of(dirs@), 0) <= u64::MAX,
    ensures
        r as nat == spec_total_size(views_of(dirs@), 0),
{
    let ghost vs = views_of(dirs@);
    let mut acc: u64 = 0;
    let mut i: usize = 0;
    proof {
        assert(vs.len() == dirs@.len());
    }
    while i < dirs.len()
        invariant
            vs == views_of(dirs@),
            vs.len() == dirs@.len(),
            i <= dirs@.len(),
            spec_total_size(vs, 0) <= u64::MAX,
            acc + spec_total_size(vs, i as int) == spec_total_size(vs, 0),
        decreases dirs@.len() - i,
    {
        proof {
            lemma_total_size_split(vs, i as int, i + 1);
        }
        let d: &FoundDir = &dirs[i];
        acc = acc + d.size_bytes;
        i += 1;
    }
    acc
}

/// Splitting the entry-size sum at any index within range.
proof fn lemma_total_size_split(s: Seq<FoundDirV>, i: int, j: int)
    requires
        0 <= i <= j <= s.len(),
    ensures
        spec_total_size(s, i) >= spec_total_size(s, j),
    decreases j - i,
{
    if i < j {
        lemma_total_size_split(s, i + 1, j);
    }
}

/// Is `pt` one of the enabled categories?
pub fn type_enabled(enabled: &Vec<ProjectType>, pt: ProjectType) -> (r: bool)
    ensures
        r == enabled@.contains(pt),
{
    let mut j: usize = 0;
    while j < enabled.len()
        invariant
            j <= enabled.len(),
            forall|m: int| 0 <= m < j ==> enabled@[m] != pt,
        decreases enabled.len() - j,
    {
        if enabled[j] == pt {
            proof {
                assert(enabled@[j as int] == pt);
            }
            return true;
        }
        j += 1;
    }
    proof {
        assert(!enabled@.contains(pt));
    }
    false
}

/// The first rule at or after `k` that fires on a directory named `name`
/// whose parent's children bear the names `sibs`, restricted to the enabled
/// categories; `None` when no such rule fires.
pub open spec fn spec_first_match_from(
    rules: Seq<CleanableDir>,
    k: int,
    name: Seq<char>,
    sibs: Seq<Seq<char>>,
    enabled: Seq<ProjectType>,
) -> Option<ProjectType>
    decreases rules.len() - k,
{
    if k < 0 || k >= rules.len() {
        None
    } else if enabled.contains(rules[k].project_type) && name == rules[k].dir_name@
        && spec_validator_passes(rules[k].validator, sibs) {
        Some(rules[k].project_type)
    } else {
        spec_first_match_from(rules, k + 1, name, sibs, enabled)
    }
}

/// First-matching-rule policy over the whole table.
pub open spec fn spec_first_match(
    rules: Seq<CleanableDir>,
    name: Seq<char>,
    sibs: Seq<Seq<char>>,
    enabled: Seq<ProjectType>,
) -> Option<ProjectType> {
    spec_first_match_from(rules, 0, name, sibs, enabled)
}

/// Finds the first rule that fires on the candidate, if any.
pub fn match_rules(
    name: &String,
    siblings: &Vec<String>,
    rules: &Vec<CleanableDir>,
    enabled: &Vec<ProjectType>,
) -> (r: Option<ProjectType>)
    ensures
        r == spec_first_match(rules@, name@, names_of(siblings@), enabled@),
{
    let mut k: usize = 0;
    while k < rules.len()
        invariant
            k <= rules.len(),
            spec_first_match(rules@, name@, names_of(siblings@), enabled@)
                == spec_first_match_from(rules@, k as int, name@, names_of(siblings@), enabled@),
        decreases rules.len() - k,
    {
        let rule = &rules[k];
        if type_enabled(enabled, rule.project_type) && str_eq(name.as_str(), rule.dir_name)
            && validator_passes(&rule.validator, siblings) {
            return Some(rule.project_type);
        }
        k += 1;
    }
    None
}

/// Everything the scan reports from the nodes `s[i..]`, visiting each node
/// before its descendants, accepting the first enabled rule whose basename
/// and sibling marker both fit, and never descending into an accepted
/// directory.
pub open spec fn spec_scan_from(
    s: Seq<FsNode>,
    i: int,
    path: Seq<Seq<char>>,
    rules: Seq<CleanableDir>,
    enabled: Seq<ProjectType>,
) -> Seq<FoundDirV>
    decreases s, s.len() - i,
{
    if i < 0 || i >= s.len() {
        Seq::empty()
    } else {
        spec_scan_node(s[i], spec_names(s), path, rules, enabled) + spec_scan_from(
            s,
            i + 1,
            path,
            rules,
            enabled,
        )
    }
}

/// What the scan reports from one node: nothing for a file; for a directory,
/// either the directory itself (when a rule fires) or whatever its children
/// yield.
pub open spec fn spec_scan_node(
    n: FsNode,
    sibs: Seq<Seq<char>>,
    path: Seq<Seq<char>>,
    rules: Seq<CleanableDir>,
    enabled: Seq<ProjectType>,
) -> Seq<FoundDirV>
    decreases n, 0int,
{
    match n {
        FsNode::File { .. } => Seq::empty(),
        FsNode::Dir { name, entries } => {
            let full = path.push(name@);
            match spec_first_match(rules, name@, sibs, enabled) {
                Some(pt) => seq![
                    FoundDirV {
                        path: full,
                        project_type: pt,
                        size_bytes: size_from(entries@, 0) as u64,
                    },
                ],
                None => spec_scan_from(entries@, 0, full, rules, enabled),
            }
        },
    }
}

/// Copies a path, component by component.
pub fn clone_path(v: &Vec<String>) -> (r: Vec<String>)
    ensures
        r@ == v@,
{
    let mut r: Vec<String> = Vec::new();
    let mut i: usize = 0;
    while i < v.len()
        invariant
            i <= v.len(),
            r@.len() == i,
            forall|j: int| 0 <= j < i ==> r@[j] == v@[j],
        decreases v.len() - i,
    {
        r.push(v[i].clone());
        i += 1;
    }
    proof {
        assert(r@ =~= v@);
    }
    r
}

/// One pre-order pass over `entries`, appending every accepted directory to
/// `out`.
fn scan_entries(
    entries: &Vec<FsNode>,
    path: &Vec<String>,
    enabled: &Vec<ProjectType>,
    rules: &Vec<CleanableDir>,
    out: &mut Vec<FoundDir>,
)
    requires
        size_from(entries@, 0) <= u64::MAX,
    ensures
        views_of(final(out)@) == views_of(old(out)@) + spec_scan_from(
            entries@,
            0,
            names_of(path@),
            rules@,
            enabled@,
        ),
    decreases entries@,
{
    let ghost p = names_of(path@);
    let ghost out0 = out@;
    let names = entry_names(entries);
    let mut i: usize = 0;
    while i < entries.len()
        invariant
            size_from(entries@, 0) <= u64::MAX,
            i <= entries.len(),
            names_of(names@) == spec_names(entries@),
            p == names_of(path@),
            views_of(out@) + spec_scan_from(entries@, i as int, p, rules@, enabled@) =~= views_of(
                out0,
            ) + spec_scan_from(entries@, 0, p, rules@, enabled@),
        decreases entries.len() - i,
    {
        let node = &entries[i];
        proof {
            assert(spec_scan_from(entries@, i as int, p, rules@, enabled@) == spec_scan_node(
                entries@[i as int],
                spec_names(entries@),
                p,
                rules@,
                enabled@,
            ) + spec_scan_from(entries@, i + 1, p, rules@, enabled@));
            lemma_size_from_split(entries@, 0, i as int);
            assert(size_from(entries@, i as int) == node_size(entries@[i as int]) + size_from(
                entries@,
                i + 1,
            ));
        }
        match node {
            FsNode::File { .. } => {
                proof {
                    assert(spec_scan_node(
                        entries@[i as int],
                        spec_names(entries@),
                        p,
                        rules@,
                        enabled@,
                    ) =~= Seq::empty());
                }
            },
            FsNode::Dir { name, entries: ch } => {
                let m = match_rules(name, &names, rules, enabled);
                let mut full = clone_path(path);
                full.push(name.clone());
                proof {
                    assert(names_of(full@) =~= p.push(name@));
                    assert(node_size(entries@[i as int]) == size_from(ch@, 0));
                    assert(size_from(ch@, 0) <= u64::MAX);
                }
                match m {
                    Some(pt) => {
                        let sz = dir_size(ch);
                        let ghost prev = out@;
                        out.push(FoundDir { path: full, project_type: pt, size_bytes: sz });
                        proof {
                            assert(spec_scan_node(
                                entries@[i as int],
                                spec_names(entries@),
                                p,
                                rules@,
                                enabled@,
                            ) =~= seq![
                                FoundDirV {
                                    path: p.push(name@),
                                    project_type: pt,
                                    size_bytes: size_from(ch@, 0) as u64,
                                },
                            ]);
                            assert(views_of(out@) =~= views_of(prev) + spec_scan_node(
                                entries@[i as int],
                                spec_names(entries@),
                                p,
                                rules@,
                                enabled@,
                            ));
                        }
                    },
                    None => {
                        proof {
                            assert(decreases_to!(entries@ => entries@[i as int]));
                            assert(spec_scan_node(
                                entries@[i as int],
                                spec_names(entries@),
                                p,
                                rules@,
                                enabled@,
                            ) == spec_scan_from(ch@, 0, p.push(name@), rules@, enabled@));
                        }
                        scan_entries(ch, &full, enabled, rules, out);
                    },
                }
            },
        }
        i += 1;
    }
    proof {
        assert(spec_scan_from(entries@, entries@.len() as int, p, rules@, enabled@)
            =~= Seq::<FoundDirV>::empty());
        assert(views_of(out@) =~= views_of(out0) + spec_scan_from(
            entries@,
            0,
            p,
            rules@,
            enabled@,
        ));
    }
}

/// Entries ordered largest first.
pub open spec fn spec_sorted_desc(s: Seq<FoundDirV>) -> bool {
    forall|i: int, j: int| 0 <= i < j < s.len() ==> s[i].size_bytes >= s[j].size_bytes
}

/// Inserting into a sequence adds one occurrence to its multiset.
proof fn lemma_insert_to_multiset(s: Seq<FoundDirV>, k: int, x: FoundDirV)
    requires
        0 <= k <= s.len(),
    ensures
        s.insert(k, x).to_multiset() == s.to_multiset().insert(x),
{
    let t = s.insert(k, x);
    t.to_multiset_ensures();
    assert(t.remove(k) =~= s);
    assert(t[k] == x);
    assert(t.contains(x));
    assert(s.to_multiset() == t.to_multiset().remove(x));
    assert(t.to_multiset() =~= s.to_multiset().insert(x));
}

/// Removing an element takes one occurrence from the multiset.
proof fn lemma_remove_to_multiset(s: Seq<FoundDir>, k: int)
    requires
        0 <= k < s.len(),
    ensures
        views_of(s.remove(k)).to_multiset() == views_of(s).to_multiset().remove(views_of(s)[k]),
        views_of(s).to_multiset().count(views_of(s)[k]) > 0,
{
    let vs = views_of(s);
    vs.to_multiset_ensures();
    assert(views_of(s.remove(k)) =~= vs.remove(k));
    assert(vs.contains(vs[k]));
}

/// A sequence without entries has no occurrences at all.
pub(crate) proof fn lemma_to_multiset_empty<A>(s: Seq<A>)
    requires
        s.len() == 0,
    ensures
        s.to_multiset() == Multiset::<A>::empty(),
{
    s.to_multiset_ensures();
    vstd::multiset::lemma_multiset_empty_len(s.to_multiset());
}

/// Concatenating sequences joins their multisets.
pub(crate) proof fn lemma_seq_add_to_multiset<A>(a: Seq<A>, b: Seq<A>)
    ensures
        (a + b).to_multiset() == a.to_multiset().add(b.to_multiset()),
    decreases b.len(),
{
    if b.len() == 0 {
        assert(a + b =~= a);
        lemma_to_multiset_empty(b);
        assert((a + b).to_multiset() =~= a.to_multiset().add(b.to_multiset()));
    } else {
        lemma_seq_add_to_multiset(a, b.drop_last());
        assert(a + b =~= (a + b.drop_last()).push(b.last()));
        (a + b.drop_last()).to_multiset_ensures();
        b.drop_last().to_multiset_ensures();
        assert(b =~= b.drop_last().push(b.last()));
        assert((a + b).to_multiset() =~= a.to_multiset().add(b.to_multiset()));
    }
}

/// Orders the entries by size, largest first, keeping exactly the same
/// collection of entries.
pub fn sort_found(v: Vec<FoundDir>) -> (r: Vec<FoundDir>)
    ensures
        views_of(r@).to_multiset() == views_of(v@).to_multiset(),
        spec_sorted_desc(views_of(r@)),
{
    let mut src = v;
    let ghost m0 = views_of(src@).to_multiset();
    let mut out: Vec<FoundDir> = Vec::new();
    proof {
        lemma_to_multiset_empty(views_of(out@));
        assert(views_of(out@).to_multiset().add(views_of(src@).to_multiset()) =~= m0);
    }
    while src.len() > 0
        invariant
            spec_sorted_desc(views_of(out@)),
            views_of(out@).to_multiset().add(views_of(src@).to_multiset()) == m0,
        decreases src.len(),
    {
        proof {
            lemma_remove_to_multiset(src@, 0);
        }
        let d = src.remove(0);
        let mut k: usize = 0;
        while k < out.len() && out[k].size_bytes >= d.size_bytes
            invariant
                k <= out.len(),
                forall|m: int| 0 <= m < k ==> views_of(out@)[m].size_bytes >= d@.size_bytes,
            decreases out.len() - k,
        {
            k += 1;
        }
        let ghost before = out@;
        let ghost dk = k as int;
        out.insert(k, d);
        proof {
            lemma_insert_to_multiset(views_of(before), dk, d@);
            assert(views_of(out@) =~= views_of(before).insert(dk, d@));
            assert(views_of(out@).to_multiset().add(views_of(src@).to_multiset()) =~= m0);
            assert forall|a: int, b: int| 0 <= a < b < views_of(out@).len() implies views_of(
                out@,
            )[a].size_bytes >= views_of(out@)[b].size_bytes by {
                let vo = views_of(before);
                let vn = views_of(out@);
                if a < dk && b < dk {
                    assert(vn[a] == vo[a] && vn[b] == vo[b]);
                } else if a < dk && b == dk {
                    assert(vn[a] == vo[a] && vn[b] == d@);
                } else if a < dk && b > dk {
                    assert(vn[a] == vo[a] && vn[b] == vo[b - 1]);
                } else if a == dk && b > dk {
                    assert(vn[a] == d@ && vn[b] == vo[b - 1]);
                    assert(dk < vo.len() ==> d@.size_bytes > vo[dk].size_bytes);
                } else {
                    assert(vn[a] == vo[a - 1] && vn[b] == vo[b - 1]);
                }
            }
        }
    }
    proof {
        lemma_to_multiset_empty(views_of(src@));
        assert(views_of(out@).to_multiset() =~= m0);
    }
    out
}

/// No two nodes of one directory share a name.
pub open spec fn distinct_names(s: Seq<FsNode>) -> bool {
    forall|i: int, j: int|
        0 <= i < s.len() && 0 <= j < s.len() && i != j ==> node_name(s[i]) != node_name(s[j])
}

/// A well-formed directory listing: distinct names at this level and in
/// every subdirectory, as a real file system guarantees.
pub open spec fn wf_entries(s: Seq<FsNode>) -> bool
    decreases s,
{
    distinct_names(s) && (forall|i: int| 0 <= i < s.len() ==> wf_node(#[trigger] s[i]))
}

/// A well-formed node.
pub open spec fn wf_node(n: FsNode) -> bool
    decreases n,
{
    match n {
        FsNode::File { .. } => true,
        FsNode::Dir { entries, .. } => wf_entries(entries@),
    }
}

/// Two nodes sharing a name refute distinctness.
proof fn lemma_not_distinct(s: Seq<FsNode>, i: int, j: int)
    requires
        0 <= i < s.len(),
        0 <= j < s.len(),
        i != j,
        node_name(s[i]) == node_name(s[j]),
    ensures
        !distinct_names(s),
{
    if distinct_names(s) {
        assert(node_name(s[i]) != node_name(s[j]));
    }
}

/// Decides well-formedness of a directory listing: distinct names at every
/// level. A picture taken from a real file system always passes; callers
/// that owe `scan` its precondition can check rather than assume.
pub fn check_entries(entries: &Vec<FsNode>) -> (r: bool)
    ensures
        r == wf_entries(entries@),
    decreases entries@,
{
    let names = entry_names(entries);
    let ghost sn = spec_names(entries@);
    let n = names.len();
    proof {
        assert(names_of(names@).len() == names@.len());
        assert(sn.len() == entries@.len());
    }
    let mut i: usize = 0;
    while i < n
        invariant
            sn == spec_names(entries@),
            names_of(names@) == sn,
            sn.len() == entries@.len(),
            n == names@.len(),
            i <= n,
            forall|a: int, b: int| 0 <= a < b < n && a < i ==> sn[a] != sn[b],
        decreases n - i,
    {
        let mut j: usize = i + 1;
        while j < n
            invariant
                sn == spec_names(entries@),
                names_of(names@) == sn,
                sn.len() == entries@.len(),
                n == names@.len(),
                i < j <= n || (i + 1 == j && j > n),
                i < n,
                forall|b: int| i < b < j ==> sn[i as int] != sn[b],
            decreases n - j,
        {
            if str_eq(names[i].as_str(), names[j].as_str()) {
                proof {
                    assert(names_of(names@).len() == names@.len());
                    assert(i < entries@.len() && j < entries@.len());
                    assert(i != j);
                    assert(sn[i as int] == sn[j as int]);
                    assert(spec_names(entries@)[i as int] == node_name(entries@[i as int]));
                    assert(spec_names(entries@)[j as int] == node_name(entries@[j as int]));
                    lemma_not_distinct(entries@, i as int, j as int);
                }
                return false;
            }
            j += 1;
        }
        i += 1;
    }
    proof {
        assert forall|a: int, b: int|
            0 <= a < entries@.len() && 0 <= b < entries@.len() && a != b implies node_name(
            entries@[a],
        ) != node_name(entries@[b]) by {
            if a < b {
                assert(sn[a] != sn[b]);
            } else {
                assert(sn[b] != sn[a]);
            }
        }
        assert(distinct_names(entries@));
    }
    let mut k: usize = 0;
    while k < entries.len()
        invariant
            distinct_names(entries@),
            k <= entries@.len(),
            forall|m: int| 0 <= m < k ==> wf_node(#[trigger] entries@[m]),
        decreases entries@.len() - k,
    {
        let node = &entries[k];
        match node {
            FsNode::Dir { entries: ch, .. } => {
                proof {
                    assert(decreases_to!(entries@ => entries@[k as int]));
                }
                if !check_entries(ch) {
                    proof {
                        assert(!wf_node(entries@[k as int]));
                    }
                    return false;
                }
                proof {
                    assert(wf_node(entries@[k as int]));
                }
            },
            FsNode::File { .. } => {
                proof {
                    assert(wf_node(entries@[k as int]));
                }
            },
        }
        k += 1;
    }
    true
}

/// `a` names a proper ancestor of `b`.
pub open spec fn is_strict_ancestor(a: Seq<Seq<char>>, b: Seq<Seq<char>>) -> bool {
    a.len() < b.len() && b.take(a.len() as int) == a
}

/// No entry lies inside another entry's subtree.
pub open spec fn no_nested(s: Seq<FoundDirV>) -> bool {
    forall|i: int, j: int|
        0 <= i < s.len() && 0 <= j < s.len() ==> !is_strict_ancestor(
            #[trigger] s[i].path,
            #[trigger] s[j].path,
        )
}

/// Follows the relative path `rel` from the nodes `s`, one directory name
/// per component; yields the directory it ends at together with the listing
/// that directory sits in.
pub open spec fn lookup(s: Seq<FsNode>, rel: Seq<Seq<char>>) -> Option<(FsNode, Seq<FsNode>)>
    decreases rel.len(),
{
    if rel.len() == 0 {
        None
    } else if exists|i: int| 0 <= i < s.len() && s[i] is Dir && node_name(s[i]) == rel[0] {
        let i = choose|i: int| 0 <= i < s.len() && s[i] is Dir && node_name(s[i]) == rel[0];
        if rel.len() == 1 {
            Some((s[i], s))
        } else {
            lookup(node_entries(s[i]), rel.drop_first())
        }
    } else {
        None
    }
}

/// The directory that a reported path names.
pub open spec fn dir_node_at(root: Seq<FsNode>, p: Seq<Seq<char>>) -> FsNode {
    (lookup(root, p)->0).0
}

/// The listing holding the directory that a reported path names.
pub open spec fn siblings_at(root: Seq<FsNode>, p: Seq<Seq<char>>) -> Seq<FsNode> {
    (lookup(root, p)->0).1
}

/// The entry `e` truthfully describes the tree: its path leads to a real
/// directory, an enabled rule fired on that directory with `e`'s category,
/// and `e`'s size is the exact sum of the regular-file byte lengths in that
/// directory's subtree.
pub open spec fn found_matches_tree(
    root: Seq<FsNode>,
    e: FoundDirV,
    rules: Seq<CleanableDir>,
    enabled: Seq<ProjectType>,
) -> bool {
    lookup(root, e.path) is Some && {
        let n = dir_node_at(root, e.path);
        let sibs = siblings_at(root, e.path);
        n is Dir && spec_first_match(rules, node_name(n), spec_names(sibs), enabled) == Some(
            e.project_type,
        ) && e.size_bytes as nat == node_size(n)
    }
}

/// Like `found_matches_tree`, but relative to a listing `depth` components
/// below the root.
pub open spec fn found_at(
    s: Seq<FsNode>,
    e: FoundDirV,
    depth: int,
    rules: Seq<CleanableDir>,
    enabled: Seq<ProjectType>,
) -> bool {
    lookup(s, e.path.skip(depth)) is Some && {
        let n = (lookup(s, e.path.skip(depth))->0).0;
        let sibs = (lookup(s, e.path.skip(depth))->0).1;
        n is Dir && spec_first_match(rules, node_name(n), spec_names(sibs), enabled) == Some(
            e.project_type,
        ) && e.size_bytes as nat == node_size(n)
    }
}

/// Two paths that agree up to a component where they differ cannot be
/// ancestor and descendant.
proof fn lemma_not_ancestor_diff_branch(a: Seq<Seq<char>>, b: Seq<Seq<char>>, d: int)
    requires
        0 <= d < a.len(),
        d < b.len(),
        a[d] != b[d],
    ensures
        !is_strict_ancestor(a, b),
        !is_strict_ancestor(b, a),
{
    if is_strict_ancestor(a, b) {
        assert(b.take(a.len() as int)[d] == b[d]);
    }
    if is_strict_ancestor(b, a) {
        assert(a.take(b.len() as int)[d] == a[d]);
    }
}

/// What the scan reports from one well-formed node: nothing nested, every
/// path branching through this node's name, and every entry truthful about
/// the listing `s` that the node sits in.
proof fn lemma_scan_node_props(
    s: Seq<FsNode>,
    idx: int,
    p: Seq<Seq<char>>,
    rules: Seq<CleanableDir>,
    enabled: Seq<ProjectType>,
)
    requires
        0 <= idx < s.len(),
        distinct_names(s),
        wf_node(s[idx]),
        node_size(s[idx]) <= u64::MAX,
    ensures
        ({
            let r = spec_scan_node(s[idx], spec_names(s), p, rules, enabled);
            &&& no_nested(r)
            &&& forall|k: int|
                0 <= k < r.len() ==> (#[trigger] r[k].path).len() > p.len() && r[k].path.take(
                    (p.len() + 1) as int,
                ) == p.push(node_name(s[idx]))
            &&& forall|k: int|
                0 <= k < r.len() ==> found_at(s, #[trigger] r[k], p.len() as int, rules, enabled)
        }),
    decreases s[idx], 0int,
{
    let r = spec_scan_node(s[idx], spec_names(s), p, rules, enabled);
    match s[idx] {
        FsNode::File { .. } => {
            assert(r.len() == 0);
        },
        FsNode::Dir { name, entries } => {
            let full = p.push(name@);
            let ch = entries@;
            match spec_first_match(rules, name@, spec_names(s), enabled) {
                Some(pt) => {
                    let e = FoundDirV {
                        path: full,
                        project_type: pt,
                        size_bytes: size_from(ch, 0) as u64,
                    };
                    assert(r =~= seq![e]);
                    assert(!is_strict_ancestor(e.path, e.path));
                    assert(e.path.take((p.len() + 1) as int) =~= full);
                    // the reported path resolves back to this very node
                    let rel = e.path.skip(p.len() as int);
                    assert(rel.len() == 1);
                    assert(rel[0] == full[p.len() as int]);
                    assert(rel[0] == name@);
                    assert(s[idx] is Dir && node_name(s[idx]) == rel[0]);
                    let i0 = choose|i: int|
                        0 <= i < s.len() && s[i] is Dir && node_name(s[i]) == rel[0];
                    assert(i0 == idx);
                    assert(lookup(s, rel) == Some((s[idx], s)));
                    assert(e.size_bytes as nat == node_size(s[idx]));
                },
                None => {
                    assert(r == spec_scan_from(ch, 0, full, rules, enabled));
                    assert(wf_entries(ch));
                    lemma_scan_from_props(ch, 0, full, rules, enabled);
                    assert forall|k: int| 0 <= k < r.len() implies (#[trigger] r[k].path).len()
                        > p.len() && r[k].path.take((p.len() + 1) as int) == p.push(
                        node_name(s[idx]),
                    ) by {
                        assert(r[k].path.take(full.len() as int) == full);
                    }
                    assert forall|k: int| 0 <= k < r.len() implies found_at(
                        s,
                        #[trigger] r[k],
                        p.len() as int,
                        rules,
                        enabled,
                    ) by {
                        let e = r[k];
                        let rel = e.path.skip(p.len() as int);
                        assert(e.path.take(full.len() as int) == full);
                        assert(e.path[p.len() as int] == full[p.len() as int]) by {
                            assert(e.path.take(full.len() as int)[p.len() as int] == e.path[p.len()
                                as int]);
                        }
                        assert(rel[0] == e.path[p.len() as int]);
                        assert(rel[0] == name@);
                        assert(rel.len() >= 2);
                        assert(s[idx] is Dir && node_name(s[idx]) == rel[0]);
                        let i0 = choose|i: int|
                            0 <= i < s.len() && s[i] is Dir && node_name(s[i]) == rel[0];
                        assert(i0 == idx);
                        assert(lookup(s, rel) == lookup(node_entries(s[idx]), rel.drop_first()));
                        assert(rel.drop_first() =~= e.path.skip((p.len() + 1) as int));
                        assert(found_at(ch, e, full.len() as int, rules, enabled));
                    }
                },
            }
        },
    }
}

/// What the scan reports from the well-formed nodes `s[i..]`: nothing
/// nested, every path below `p` branching through the name of one of those
/// nodes, and every entry truthful about `s`.
proof fn lemma_scan_from_props(
    s: Seq<FsNode>,
    i: int,
    p: Seq<Seq<char>>,
    rules: Seq<CleanableDir>,
    enabled: Seq<ProjectType>,
)
    requires
        0 <= i,
        wf_entries(s),
        size_from(s, i) <= u64::MAX,
    ensures
        ({
            let r = spec_scan_from(s, i, p, rules, enabled);
            &&& no_nested(r)
            &&& forall|k: int|
                0 <= k < r.len() ==> (#[trigger] r[k].path).len() > p.len() && r[k].path.take(
                    p.len() as int,
                ) == p && (exists|m: int|
                    i <= m < s.len() && r[k].path[p.len() as int] == node_name(s[m]))
            &&& forall|k: int|
                0 <= k < r.len() ==> found_at(s, #[trigger] r[k], p.len() as int, rules, enabled)
        }),
    decreases s, s.len() - i,
{
    let r = spec_scan_from(s, i, p, rules, enabled);
    if i >= s.len() {
        assert(r.len() == 0);
    } else {
        let head = spec_scan_node(s[i], spec_names(s), p, rules, enabled);
        let tail = spec_scan_from(s, i + 1, p, rules, enabled);
        assert(r == head + tail);
        assert(size_from(s, i) == node_size(s[i]) + size_from(s, i + 1));
        lemma_scan_node_props(s, i, p, rules, enabled);
        lemma_scan_from_props(s, i + 1, p, rules, enabled);
        let hn = head.len() as int;
        assert forall|k: int| 0 <= k < r.len() implies (#[trigger] r[k].path).len() > p.len()
            && r[k].path.take(p.len() as int) == p && (exists|m: int|
            i <= m < s.len() && r[k].path[p.len() as int] == node_name(s[m])) by {
            if k < hn {
                assert(r[k] == head[k]);
                assert(head[k].path.take((p.len() + 1) as int) == p.push(node_name(s[i])));
                assert(head[k].path.take(p.len() as int) =~= p) by {
                    assert(forall|q: int|
                        0 <= q < p.len() ==> head[k].path.take(p.len() as int)[q] == head[k].path[q]
                            && head[k].path.take((p.len() + 1) as int)[q] == head[k].path[q]);
                }
                assert(r[k].path[p.len() as int] == node_name(s[i])) by {
                    assert(head[k].path.take((p.len() + 1) as int)[p.len() as int] == head[k].path[p.len() as int]);
                }
                assert(i <= i < s.len() && r[k].path[p.len() as int] == node_name(s[i]));
            } else {
                assert(r[k] == tail[k - hn]);
            }
        }
        assert forall|k: int| 0 <= k < r.len() implies found_at(
            s,
            #[trigger] r[k],
            p.len() as int,
            rules,
            enabled,
        ) by {
            if k < hn {
                assert(r[k] == head[k]);
            } else {
                assert(r[k] == tail[k - hn]);
            }
        }
        assert forall|a: int, b: int| 0 <= a < r.len() && 0 <= b < r.len()
            implies !is_strict_ancestor(#[trigger] r[a].path, #[trigger] r[b].path) by {
            if a < hn && b < hn {
                assert(r[a] == head[a] && r[b] == head[b]);
                assert(!is_strict_ancestor(head[a].path, head[b].path));
            } else if a >= hn && b >= hn {
                assert(r[a] == tail[a - hn] && r[b] == tail[b - hn]);
                assert(!is_strict_ancestor(tail[a - hn].path, tail[b - hn].path));
            } else {
                let x = if a < hn {
                    a
                } else {
                    b
                };
                let y = if a < hn {
                    b
                } else {
                    a
                };
                assert(r[x] == head[x]);
                assert(r[y] == tail[y - hn]);
                assert(head[x].path[p.len() as int] == node_name(s[i])) by {
                    assert(head[x].path.take((p.len() + 1) as int)[p.len() as int] == head[x].path[p.len() as int]);
                }
                let m = choose|m: int|
                    i + 1 <= m < s.len() && tail[y - hn].path[p.len() as int] == node_name(s[m]);
                assert(node_name(s[i]) != node_name(s[m]));
                lemma_not_ancestor_diff_branch(r[x].path, r[y].path, p.len() as int);
            }
        }
    }
}

/// A rule table in which every rule sharing the candidate's basename has a
/// failing sibling check accepts nothing at or after position `k`.
proof fn lemma_fail_closed_from(
    rules: Seq<CleanableDir>,
    k: int,
    name: Seq<char>,
    sibs: Seq<Seq<char>>,
    enabled: Seq<ProjectType>,
)
    requires
        forall|m: int|
            0 <= m < rules.len() && (#[trigger] rules[m].dir_name)@ == name
                ==> !spec_validator_passes(rules[m].validator, sibs),
        0 <= k,
    ensures
        spec_first_match_from(rules, k, name, sibs, enabled) is None,
    decreases rules.len() - k,
{
    if k < rules.len() {
        lemma_fail_closed_from(rules, k + 1, name, sibs, enabled);
    }
}

/// Fail-closed: a candidate directory whose siblings satisfy no rule
/// sharing its basename is never accepted, whatever categories are enabled.
pub proof fn lemma_fail_closed(
    rules: Seq<CleanableDir>,
    name: Seq<char>,
    sibs: Seq<Seq<char>>,
    enabled: Seq<ProjectType>,
)
    requires
        forall|m: int|
            0 <= m < rules.len() && (#[trigger] rules[m].dir_name)@ == name
                ==> !spec_validator_passes(rules[m].validator, sibs),
    ensures
        spec_first_match(rules, name, sibs, enabled) is None,
{
    lemma_fail_closed_from(rules, 0, name, sibs, enabled);
}

/// A directory that every rule sharing its basename rejects never appears
/// in output that is truthful about the tree.
pub proof fn lemma_unmarked_never_reported(
    out: Seq<FoundDirV>,
    root: Seq<FsNode>,
    rules: Seq<CleanableDir>,
    enabled: Seq<ProjectType>,
    p: Seq<Seq<char>>,
)
    requires
        forall|k: int|
            0 <= k < out.len() ==> found_matches_tree(root, #[trigger] out[k], rules, enabled),
        lookup(root, p) is Some,
        forall|m: int|
            0 <= m < rules.len() && (#[trigger] rules[m].dir_name)@ == node_name(
                dir_node_at(root, p),
            ) ==> !spec_validator_passes(rules[m].validator, spec_names(siblings_at(root, p))),
    ensures
        forall|k: int| 0 <= k < out.len() ==> (#[trigger] out[k]).path != p,
{
    lemma_fail_closed(
        rules,
        node_name(dir_node_at(root, p)),
        spec_names(siblings_at(root, p)),
        enabled,
    );
    assert forall|k: int| 0 <= k < out.len() implies (#[trigger] out[k]).path != p by {
        if out[k].path == p {
            assert(found_matches_tree(root, out[k], rules, enabled));
        }
    }
}

/// The categories a scan acts on: an empty set stands for every registered
/// category.
pub open spec fn spec_enabled(e: Seq<ProjectType>) -> Seq<ProjectType> {
    if e.len() == 0 {
        spec_type_order()
    } else {
        e
    }
}

/// Copies a list of categories.
fn copy_types(v: &Vec<ProjectType>) -> (r: Vec<ProjectType>)
    ensures
        r@ == v@,
{
    let mut r: Vec<ProjectType> = Vec::new();
    let mut i: usize = 0;
    while i < v.len()
        invariant
            i <= v.len(),
            r@.len() == i,
            forall|j: int| 0 <= j < i ==> r@[j] == v@[j],
        decreases v.len() - i,
    {
        r.push(v[i]);
        i += 1;
    }
    proof {
        assert(r@ =~= v@);
    }
    r
}

/// Walks the tree whose root holds `root` as its immediate children, reports
/// every directory accepted by an enabled rule of the registry, pruning the
/// subtree beneath each accepted directory, and hands the findings back
/// ordered largest first. An empty `enabled` list enables every category.
pub fn scan(root: &Vec<FsNode>, enabled: &Vec<ProjectType>) -> (r: Vec<FoundDir>)
    requires
        wf_entries(root@),
        size_from(root@, 0) <= u64::MAX,
    ensures
        views_of(r@).to_multiset() == spec_scan_from(
            root@,
            0,
            Seq::empty(),
            spec_rules(),
            spec_enabled(enabled@),
        ).to_multiset(),
        spec_sorted_desc(views_of(r@)),
        no_nested(views_of(r@)),
        forall|k: int|
            0 <= k < r@.len() ==> found_matches_tree(
                root@,
                #[trigger] views_of(r@)[k],
                spec_rules(),
                spec_enabled(enabled@),
            ),
{
    let eff: Vec<ProjectType> = if enabled.len() == 0 {
        ProjectType::all()
    } else {
        copy_types(enabled)
    };
    proof {
        assert(eff@ == spec_enabled(enabled@));
    }
    let rules = get_cleanable_dirs();
    let empty_path: Vec<String> = Vec::new();
    let mut out: Vec<FoundDir> = Vec::new();
    proof {
        assert(names_of(empty_path@) =~= Seq::<Seq<char>>::empty());
        assert(views_of(out@) =~= Seq::<FoundDirV>::empty());
    }
    scan_entries(root, &empty_path, &eff, &rules, &mut out);
    let r = sort_found(out);
    proof {
        let spec_out = spec_scan_from(root@, 0, Seq::empty(), spec_rules(), eff@);
        let vs = views_of(r@);
        lemma_scan_from_props(root@, 0, Seq::empty(), spec_rules(), eff@);
        vs.to_multiset_ensures();
        spec_out.to_multiset_ensures();
        // every element of the sorted output occurs in the unsorted spec
        assert forall|k: int| 0 <= k < vs.len() implies spec_out.contains(#[trigger] vs[k]) by {
            assert(vs.contains(vs[k]));
            assert(vs.to_multiset().count(vs[k]) > 0);
        }
        assert forall|a: int, b: int| 0 <= a < vs.len() && 0 <= b < vs.len()
            implies !is_strict_ancestor(#[trigger] vs[a].path, #[trigger] vs[b].path) by {
            let ia = choose|i: int| 0 <= i < spec_out.len() && spec_out[i] == vs[a];
            let ib = choose|i: int| 0 <= i < spec_out.len() && spec_out[i] == vs[b];
            assert(!is_strict_ancestor(spec_out[ia].path, spec_out[ib].path));
        }
        assert forall|k: int| 0 <= k < r@.len() implies found_matches_tree(
            root@,
            #[trigger] views_of(r@)[k],
            spec_rules(),
            eff@,
        ) by {
            let ik = choose|i: int| 0 <= i < spec_out.len() && spec_out[i] == vs[k];
            assert(found_at(root@, spec_out[ik], 0, spec_rules(), eff@));
            assert(spec_out[ik].path.skip(0) =~= spec_out[ik].path);
        }
    }
    r
}

} // verus!
