//! What a scan decides: which directories it enters and which it leaves out.

use crate::firmlinks::link_texts;
use crate::scan_laws::law_mirrors_of_a_scan;
use crate::strmap::StrMap;
use crate::text::{
    all_ascii, ascii_lowercased, characters, last_index_of, lemma_last_index_of, lowercase,
    split_last,
};
use std::collections::HashSet;
use vstd::prelude::*;

verus! {

/// Identities of visited directories: (device, inode).
/// Firmlinks expose the same directory at two paths (e.g. `/Users` and
/// `/System/Volumes/Data/Users`) with identical dev+ino; without tracking,
/// a scan covering both views counts everything twice.
pub struct VisitedDirs {
    keys: HashSet<u128>,
}

/// An identity as one number.
pub open spec fn ident_key(ident: (u64, u64)) -> int {
    ident.0 * 0x1_0000_0000_0000_0000 + ident.1
}

impl View for VisitedDirs {
    type V = Set<(u64, u64)>;

    closed spec fn view(&self) -> Set<(u64, u64)> {
        Set::new(|ident: (u64, u64)| self.keys@.contains(ident_key(ident) as u128))
    }
}

impl Default for VisitedDirs {
    fn default() -> (r: Self)
        ensures
            r@ == Set::<(u64, u64)>::empty(),
    {
        let r = VisitedDirs { keys: HashSet::new() };
        assert(r@ =~= Set::<(u64, u64)>::empty());
        r
    }
}

impl VisitedDirs {
    /// Marks an identity as visited. Returns false when it already was.
    pub fn insert(&mut self, ident: (u64, u64)) -> (r: bool)
        ensures
            r == !old(self)@.contains(ident),
            final(self)@ == old(self)@.insert(ident),
    {
        let key: u128 = ident.0 as u128 * 0x1_0000_0000_0000_0000 + ident.1 as u128;
        let fresh: bool = self.keys.insert(key);
        assert(self@ =~= old(self)@.insert(ident));
        fresh
    }
}

/// Per-scan dedup state.
pub struct ScanCtx {
    pub visited: VisitedDirs,
    /// Firmlink table: Data-relative target -> lowercased canonical absolute
    /// path (e.g. `Users` -> `/users`). Empty when the table is unreadable,
    /// in which case only `visited` applies.
    pub firmlinks: StrMap<Box<str>>,
    /// (dev, ino) of `/System/Volumes/Data`, or None when `firmlinks` is empty.
    pub data_root: Option<(u64, u64)>,
    /// Lowercased canonicalized scan root, for containment checks.
    pub scan_root: Box<str>,
}

/// The dedup state of a scan, as its rules see it.
pub ghost struct ScanView {
    pub visited: Set<(u64, u64)>,
    pub links: Map<Seq<char>, Seq<char>>,
    pub data_root: Option<(u64, u64)>,
    pub scan_root: Seq<char>,
}

impl View for ScanCtx {
    type V = ScanView;

    open spec fn view(&self) -> ScanView {
        ScanView {
            visited: self.visited@,
            links: link_texts(self.firmlinks@),
            data_root: self.data_root,
            scan_root: self.scan_root@,
        }
    }
}

impl ScanView {
    /// Whether the Data-relative path `rel` is a mirror of something that the
    /// scan covers at its canonical path.
    pub open spec fn mirrors(self, rel: Seq<char>) -> bool {
        mirrored(rel, self.links, self.scan_root)
    }

    /// The Data-relative path of a directory: empty for the Data volume itself,
    /// the parent's path and the name below it, none elsewhere.
    pub open spec fn data_rel(
        self,
        name: Seq<char>,
        ident: Option<(u64, u64)>,
        parent_rel: Option<Seq<char>>,
    ) -> Option<Seq<char>> {
        if ident is Some && ident == self.data_root {
            Some(Seq::empty())
        } else {
            match parent_rel {
                Some(parent) => Some(
                    if parent.len() == 0 {
                        name
                    } else {
                        parent + seq!['/'] + name
                    },
                ),
                None => None,
            }
        }
    }

    /// Whether a directory at that Data-relative path is left out as a mirror.
    pub open spec fn prunes(self, rel: Option<Seq<char>>) -> bool {
        rel matches Some(r) && r.len() > 0 && self.mirrors(r)
    }

    /// The state after an identity was claimed.
    pub open spec fn claimed(self, ident: Option<(u64, u64)>) -> ScanView {
        match ident {
            Some(key) => ScanView { visited: self.visited.insert(key), ..self },
            None => self,
        }
    }

    /// Whether an identity can still be claimed.
    pub open spec fn claimable(self, ident: Option<(u64, u64)>) -> bool {
        ident matches Some(key) ==> !self.visited.contains(key)
    }

    /// Whether the scan enters a directory: it is no mirror to be left out and
    /// was not visited before.
    pub open spec fn admits(
        self,
        name: Seq<char>,
        ident: Option<(u64, u64)>,
        parent_rel: Option<Seq<char>>,
    ) -> bool {
        !self.prunes(self.data_rel(name, ident, parent_rel)) && self.claimable(ident)
    }

    /// The state after a directory was looked at: a mirror that is left out is
    /// not claimed.
    pub open spec fn after(
        self,
        name: Seq<char>,
        ident: Option<(u64, u64)>,
        parent_rel: Option<Seq<char>>,
    ) -> ScanView {
        if self.prunes(self.data_rel(name, ident, parent_rel)) {
            self
        } else {
            self.claimed(ident)
        }
    }
}

/// Claim an identity for traversal. Returns false when already visited
/// through another path. Fails open (returns true) when unstated.
pub fn claim_ident(ident: Option<(u64, u64)>, visited: &mut VisitedDirs) -> (r: bool)
    ensures
        match ident {
            None => r && final(visited)@ == old(visited)@,
            Some(key) => r == !old(visited)@.contains(key) && final(visited)@ == old(
                visited,
            )@.insert(key),
        },
{
    match ident {
        None => true,
        Some(key) => visited.insert(key),
    }
}

/// Whether `canonical` lies in the tree below `root`: it is the root itself, or
/// continues it with a slash; everything lies below `/`.
pub open spec fn lies_under(canonical: Seq<char>, root: Seq<char>) -> bool {
    ||| root == seq!['/']
    ||| canonical == root
    ||| {
        &&& canonical.len() > root.len()
        &&& canonical.take(root.len() as int) == root
        &&& canonical[root.len() as int] == '/'
    }
}

/// Whether the first `n` characters of `rel` are `rel` itself or one of its
/// parents.
pub open spec fn is_parent_cut(rel: Seq<char>, n: int) -> bool {
    n == rel.len() || (0 <= n < rel.len() && rel[n] == '/')
}

/// Whether a target of the table, with its canonical path below `root`, is
/// `rel` or a parent of it.
pub open spec fn mirrored(
    rel: Seq<char>,
    links: Map<Seq<char>, Seq<char>>,
    root: Seq<char>,
) -> bool {
    exists|n: int|
        is_parent_cut(rel, n) && links.contains_key(#[trigger] rel.take(n)) && lies_under(
            links[rel.take(n)],
            root,
        )
}

/// Whether `canonical` lies in the tree below `root`.
fn is_under(canonical: &str, root: &str) -> (r: bool)
    ensures
        r == lies_under(canonical@, root@),
{
    let c: Vec<char> = characters(canonical);
    let r: Vec<char> = characters(root);
    if r.len() == 1 && r[0] == '/' {
        assert(root@ =~= seq!['/']);
        return true;
    }
    if c.len() < r.len() {
        return false;
    }
    let mut i: usize = 0;
    while i < r.len()
        invariant
            c@ == canonical@,
            r@ == root@,
            i <= r.len() <= c.len(),
            root@ != seq!['/'],
            forall|j: int| 0 <= j < i ==> c@[j] == r@[j],
        decreases r.len() - i,
    {
        if c[i] != r[i] {
            assert(canonical@.take(root@.len() as int)[i as int] == c@[i as int]);
            return false;
        }
        i = i + 1;
    }
    assert(canonical@.take(root@.len() as int) =~= root@);
    if c.len() == r.len() {
        assert(canonical@ =~= root@);
        true
    } else {
        c[r.len()] == '/'
    }
}

/// Whether the Data-relative path `rel` (e.g. `Users/gregoreesmaa`) is a mirror
/// whose canonical path is also being scanned (i.e. under the scan root).
/// Then the canonical view covers it and it can be skipped — deterministically.
/// When the canonical is outside the scan, the mirror is kept: it is the only
/// view in this scan, so skipping it would lose content. Any matching target
/// counts, from `rel` itself up through its parents.
pub fn is_mirror_in_scan(rel: &str, ctx: &ScanCtx) -> (r: bool)
    ensures
        r == ctx@.mirrors(rel@),
        r <==> exists|target: Seq<char>| #[trigger]
            ctx.firmlinks@.contains_key(target) && lies_under(
                ctx.firmlinks@[target]@,
                ctx.scan_root@,
            ) && (rel@ == target || exists|rest: Seq<char>|
                rel@ == #[trigger] (target + seq!['/'] + rest)),
{
    let ghost links = link_texts(ctx.firmlinks@);
    proof {
        law_mirrors_of_a_scan(rel@, *ctx);
    }
    if ctx.firmlinks.is_empty() {
        return false;
    }
    let mut prefix: &str = rel;
    let ghost mut n: int = rel@.len() as int;
    assert(rel@.take(n) =~= rel@);
    loop
        invariant
            links == link_texts(ctx.firmlinks@),
            ctx@.mirrors(rel@) <==> exists|target: Seq<char>| #[trigger]
                ctx.firmlinks@.contains_key(target) && lies_under(
                    ctx.firmlinks@[target]@,
                    ctx.scan_root@,
                ) && (rel@ == target || exists|rest: Seq<char>|
                    rel@ == #[trigger] (target + seq!['/'] + rest)),
            is_parent_cut(rel@, n),
            prefix@ == rel@.take(n),
            forall|k: int|
                k > n && is_parent_cut(rel@, k) && links.contains_key(#[trigger] rel@.take(k))
                    ==> !lies_under(links[rel@.take(k)], ctx.scan_root@),
        decreases prefix@.len(),
    {
        if let Some(canonical) = ctx.firmlinks.get(prefix) {
            assert(links[prefix@] == canonical@);
            if is_under(canonical, &ctx.scan_root) {
                assert(links.contains_key(rel@.take(n)));
                return true;
            }
        }
        proof {
            lemma_last_index_of(prefix@, '/');
        }
        match split_last(prefix, '/') {
            Some((parent, _)) => {
                proof {
                    let m = last_index_of(prefix@, '/').unwrap();
                    assert forall|k: int| k > m && is_parent_cut(rel@, k) && links.contains_key(
                        #[trigger] rel@.take(k),
                    ) implies !lies_under(links[rel@.take(k)], ctx.scan_root@) by {
                        if k < n {
                            assert(prefix@[k] == rel@[k]);
                        }
                    }
                    assert(parent@ =~= rel@.take(m));
                    assert(rel@[m] == prefix@[m]);
                    n = m;
                }
                prefix = parent;
            },
            None => {
                assert forall|k: int| is_parent_cut(rel@, k) && links.contains_key(
                    #[trigger] rel@.take(k),
                ) implies !lies_under(links[rel@.take(k)], ctx.scan_root@) by {
                    if k < n {
                        assert(prefix@[k] == rel@[k]);
                    }
                }
                return false;
            },
        }
    }
}

/// The text behind an optional reference.
pub open spec fn text_of(text: Option<&str>) -> Option<Seq<char>> {
    match text {
        Some(t) => Some(t@),
        None => None,
    }
}

/// The text of an optional string.
pub open spec fn string_of(text: Option<String>) -> Option<Seq<char>> {
    match text {
        Some(t) => Some(t@),
        None => None,
    }
}

/// Whether the two identities are there and equal.
fn same_ident(a: Option<(u64, u64)>, b: Option<(u64, u64)>) -> (r: bool)
    ensures
        r == (a is Some && a == b),
{
    match (a, b) {
        (Some(x), Some(y)) => x.0 == y.0 && x.1 == y.1,
        _ => false,
    }
}

/// Data-relative path of child `name` given the parent's: Some("") marks the
/// Data volume root itself, None means outside the Data volume (the common
/// case — no allocation happens there either).
pub fn child_data_rel(
    name: &str,
    ident: Option<(u64, u64)>,
    parent_rel: Option<&str>,
    ctx: &ScanCtx,
) -> (r: Option<String>)
    ensures
        string_of(r) == ctx@.data_rel(name@, ident, text_of(parent_rel)),
{
    if same_ident(ident, ctx.data_root) {
        return Some(String::new());
    }
    match parent_rel {
        Some(parent) => {
            if parent.is_empty() {
                Some(name.to_owned())
            } else {
                let mut rel: String = parent.to_owned();
                let slash: &str = "/";
                rel.append(slash);
                rel.append(name);
                proof {
                    reveal_strlit("/");
                    assert(rel@ =~= parent@ + seq!['/'] + name@);
                }
                Some(rel)
            }
        },
        None => None,
    }
}

/// The dedup context of a scan, given its lowercased root. The identity of the
/// Data volume counts only where there is a firmlink table.
pub fn new_scan_ctx(
    scan_root: Box<str>,
    firmlinks: StrMap<Box<str>>,
    data_ident: Option<(u64, u64)>,
) -> (r: ScanCtx)
    ensures
        r.firmlinks == firmlinks,
        r.visited@ == Set::<(u64, u64)>::empty(),
        r.scan_root == scan_root,
        r.data_root == (if firmlinks@ == Map::<Seq<char>, Box<str>>::empty() {
            None
        } else {
            data_ident
        }),
{
    let data_root: Option<(u64, u64)> = if firmlinks.is_empty() {
        None
    } else {
        data_ident
    };
    ScanCtx { visited: VisitedDirs::default(), firmlinks, data_root, scan_root }
}

/// Build the dedup context for a scan rooted at the canonicalized path `root`.
pub fn make_scan_ctx(
    root: &str,
    firmlinks: StrMap<Box<str>>,
    data_ident: Option<(u64, u64)>,
) -> (r: ScanCtx)
    ensures
        r.firmlinks == firmlinks,
        r.visited@ == Set::<(u64, u64)>::empty(),
        r.scan_root@ == lowercase(root@),
        all_ascii(root@) ==> r.scan_root@ == ascii_lowercased(root@),
        r.data_root == (if firmlinks@ == Map::<Seq<char>, Box<str>>::empty() {
            None
        } else {
            data_ident
        }),
{
    let lowered: String = root.to_lowercase();
    new_scan_ctx(lowered.into_boxed_str(), firmlinks, data_ident)
}

/// Starts a scan: claims its root and gives the root's Data-relative path.
/// The root behaves like a child of nowhere: its path is set only when
/// the root IS the Data volume.
pub fn enter_root(ident: Option<(u64, u64)>, ctx: &mut ScanCtx) -> (r: Option<String>)
    ensures
        final(ctx)@ == old(ctx)@.claimed(ident),
        final(ctx).firmlinks == old(ctx).firmlinks,
        string_of(r) == old(ctx)@.data_rel(Seq::empty(), ident, None),
{
    let _ = claim_ident(ident, &mut ctx.visited);
    let nameless: &str = "";
    proof {
        reveal_strlit("");
        assert(nameless@ =~= Seq::<char>::empty());
    }
    child_data_rel(nameless, ident, None, ctx)
}

/// What becomes of a subdirectory.
pub enum ChildStep {
    /// It is left out.
    Skip,
    /// It is scanned; its Data-relative path is given along.
    Descend { data_rel: Option<String> },
}

/// Decides whether a subdirectory is scanned.
/// Two dedup layers: firmlink mirrors under /System/Volumes/Data whose
/// canonical is also in this scan are skipped (deterministic), and
/// anything already visited via another path is skipped as well
/// (bind mounts and friends — first claim wins).
pub fn enter_child(
    name: &str,
    ident: Option<(u64, u64)>,
    parent_rel: Option<&str>,
    ctx: &mut ScanCtx,
) -> (r: ChildStep)
    ensures
        final(ctx)@ == old(ctx)@.after(name@, ident, text_of(parent_rel)),
        final(ctx).firmlinks == old(ctx).firmlinks,
        match r {
            ChildStep::Skip => !old(ctx)@.admits(name@, ident, text_of(parent_rel)),
            ChildStep::Descend { data_rel } => old(ctx)@.admits(name@, ident, text_of(parent_rel))
                && string_of(data_rel) == old(ctx)@.data_rel(name@, ident, text_of(parent_rel)),
        },
{
    let data_rel: Option<String> = child_data_rel(name, ident, parent_rel, ctx);
    if let Some(rel) = &data_rel {
        if !rel.as_str().is_empty() && is_mirror_in_scan(rel, ctx) {
            return ChildStep::Skip;
        }
    }
    if !claim_ident(ident, &mut ctx.visited) {
        assert(ctx@.visited =~= old(ctx)@.claimed(ident).visited);
        return ChildStep::Skip;
    }
    ChildStep::Descend { data_rel }
}

} // verus!
