//! Which compression schemes compete.

use vstd::prelude::*;

use crate::text::same_text;

verus! {

/// The place of the offsets among the children of a list.
pub const LIST_OFFSETS: usize = 1;

/// The name of a compression scheme.
#[derive(Clone, Copy, Debug)]
pub struct SchemeId {
    /// The name.
    pub name: &'static str,
}

impl SchemeId {
    /// Whether two names are the same.
    pub fn same(self, other: SchemeId) -> (same: bool)
        ensures
            same == (self.name@ == other.name@),
    {
        same_text(self.name, other.name)
    }
}

/// What is read of a compression scheme.
pub struct Scheme {
    /// Its name.
    pub id: SchemeId,
    /// The names of the schemes that it replaces.
    pub replaces: Vec<SchemeId>,
}

/// Which children of a scheme a rule is about.
#[derive(Clone, Copy, Debug, PartialEq, Eq, Structural)]
pub enum ChildSelection {
    /// All of them.
    All,
    /// One of them.
    One(usize),
}

/// A scheme that is not used below another.
#[derive(Clone, Copy, Debug)]
pub struct DescendantExclusion {
    /// The scheme that is not used.
    pub excluded: SchemeId,
    /// Below which children.
    pub children: ChildSelection,
}

/// The scheme that encodes integers by a dictionary.
pub fn int_dict_scheme() -> (id: SchemeId)
    ensures
        id.name@ == "vortex.int.dict"@,
{
    SchemeId { name: "vortex.int.dict" }
}

/// Whether one of a list of names is the given one.
pub open spec fn names(ids: Seq<SchemeId>, id: SchemeId) -> bool {
    exists|i: int| 0 <= i < ids.len() && (#[trigger] ids[i]).name@ == id.name@
}

/// Whether one of the given schemes replaces the named one.
pub open spec fn replaced<'a>(schemes: Seq<&'a Scheme>, id: SchemeId) -> bool {
    exists|i: int| 0 <= i < schemes.len() && names((#[trigger] schemes[i]).replaces@, id)
}

/// Those of the first `n` schemes that no given scheme replaces, in order.
pub open spec fn active<'a>(schemes: Seq<&'a Scheme>, n: nat) -> Seq<&'a Scheme>
    decreases n,
{
    if n == 0 || n > schemes.len() {
        seq![]
    } else {
        let front = active(schemes, (n - 1) as nat);
        if replaced(schemes, schemes[n - 1].id) {
            front
        } else {
            front.push(schemes[n - 1])
        }
    }
}

/// A scheme is active if and only if it is given and no given scheme replaces it, so two versions
/// of one scheme never compete.
pub proof fn law_active<'a>(schemes: Seq<&'a Scheme>, n: nat, scheme: &'a Scheme)
    requires
        n <= schemes.len(),
    ensures
        active(schemes, n).contains(scheme) <==> schemes.take(n as int).contains(scheme)
            && !replaced(schemes, scheme.id),
    decreases n,
{
    if n > 0 {
        law_active(schemes, (n - 1) as nat, scheme);
        let front = active(schemes, (n - 1) as nat);
        let whole = active(schemes, n);
        let (before, after) = (schemes.take(n - 1), schemes.take(n as int));
        assert(after =~= before.push(schemes[n - 1]));
        if whole.contains(scheme) {
            let k = whole.index_of(scheme);
            if k < front.len() {
                assert(front[k] == scheme);
                let m = before.index_of(scheme);
                assert(after[m] == scheme);
            } else {
                assert(after[n - 1] == scheme);
            }
        }
        if after.contains(scheme) && !replaced(schemes, scheme.id) {
            let m = after.index_of(scheme);
            if m < n - 1 {
                assert(before[m] == scheme);
                assert(front.contains(scheme));
                let k = front.index_of(scheme);
                assert(whole[k] == scheme);
            } else {
                assert(whole[whole.len() - 1] == scheme);
            }
        }
    }
}

/// Schemes are active in the order in which they were given: where one is active, those before it
/// that are active come before it.
pub proof fn law_order_is_kept<'a>(schemes: Seq<&'a Scheme>, n: nat, m: nat)
    requires
        n <= m <= schemes.len(),
    ensures
        active(schemes, n).len() <= active(schemes, m).len(),
        active(schemes, m).take(active(schemes, n).len() as int) == active(schemes, n),
    decreases m,
{
    if n < m {
        law_order_is_kept(schemes, n, (m - 1) as nat);
        let (a, b, c) = (
            active(schemes, n),
            active(schemes, (m - 1) as nat),
            active(schemes, m),
        );
        assert(c.take(a.len() as int) =~= b.take(a.len() as int));
    } else {
        assert(active(schemes, m).take(active(schemes, n).len() as int) =~= active(schemes, n));
    }
}

/// A compressor that tries schemes one below the other.
pub struct CascadingCompressor<'a> {
    schemes: Vec<&'a Scheme>,
    root_exclusions: Vec<DescendantExclusion>,
}

impl<'a> CascadingCompressor<'a> {
    /// The schemes that are active, in order.
    pub closed spec fn view(&self) -> Seq<&'a Scheme> {
        self.schemes@
    }

    /// The rules below the compressor's own children.
    pub closed spec fn exclusions(&self) -> Seq<DescendantExclusion> {
        self.root_exclusions@
    }

    /// A compressor with the given schemes.
    ///
    /// A scheme that another given scheme replaces is dropped, so two versions of one scheme never
    /// compete. Restrict the list to the schemes that the writer permits before, so that a newer
    /// version that is not permitted is gone before the replacement and the version it replaces
    /// stays.
    ///
    /// Dictionaries of integers are not used for the offsets of lists, which only increase.
    pub fn new(schemes: Vec<&'a Scheme>) -> (compressor: Self)
        ensures
            compressor.view() == active(schemes@, schemes@.len()),
            compressor.exclusions().len() == 1,
            compressor.exclusions()[0].excluded.name@ == "vortex.int.dict"@,
            compressor.exclusions()[0].children == ChildSelection::One(LIST_OFFSETS),
    {
        let mut kept: Vec<&'a Scheme> = Vec::new();
        let mut i: usize = 0;
        while i < schemes.len()
            invariant
                i <= schemes@.len(),
                kept@ == active(schemes@, i as nat),
            decreases schemes@.len() - i,
        {
            if !is_replaced(&schemes, schemes[i].id) {
                kept.push(schemes[i]);
            }
            i = i + 1;
        }
        let mut root_exclusions: Vec<DescendantExclusion> = Vec::new();
        root_exclusions.push(
            DescendantExclusion {
                excluded: int_dict_scheme(),
                children: ChildSelection::One(LIST_OFFSETS),
            },
        );
        CascadingCompressor { schemes: kept, root_exclusions }
    }

    /// The schemes that are active, in the order in which they were given.
    pub fn schemes(&self) -> (schemes: &[&'a Scheme])
        ensures
            schemes@ == self.view(),
    {
        self.schemes.as_slice()
    }

    /// The rules below the compressor's own children.
    pub fn root_exclusions(&self) -> (exclusions: &[DescendantExclusion])
        ensures
            exclusions@ == self.exclusions(),
    {
        self.root_exclusions.as_slice()
    }

    /// Whether a scheme is active.
    pub fn has_scheme(&self, scheme: SchemeId) -> (active: bool)
        ensures
            active == exists|i: int|
                0 <= i < self.view().len() && (#[trigger] self.view()[i]).id.name@ == scheme.name@,
    {
        let mut i: usize = 0;
        while i < self.schemes.len()
            invariant
                i <= self.schemes@.len(),
                forall|j: int|
                    0 <= j < i ==> (#[trigger] self.schemes@[j]).id.name@ != scheme.name@,
            decreases self.schemes@.len() - i,
        {
            if self.schemes[i].id.same(scheme) {
                assert(self.view()[i as int].id.name@ == scheme.name@);
                return true;
            }
            i = i + 1;
        }
        false
    }
}

/// Whether one of the given schemes replaces the named one.
fn is_replaced<'a>(schemes: &Vec<&'a Scheme>, id: SchemeId) -> (is_replaced: bool)
    ensures
        is_replaced == replaced(schemes@, id),
{
    let mut i: usize = 0;
    while i < schemes.len()
        invariant
            i <= schemes@.len(),
            forall|j: int| 0 <= j < i ==> !names((#[trigger] schemes@[j]).replaces@, id),
        decreases schemes@.len() - i,
    {
        let list: &Vec<SchemeId> = &schemes[i].replaces;
        let mut k: usize = 0;
        while k < list.len()
            invariant
                i < schemes@.len(),
                list@ == schemes@[i as int].replaces@,
                k <= list@.len(),
                forall|j: int| 0 <= j < k ==> (#[trigger] list@[j]).name@ != id.name@,
            decreases list@.len() - k,
        {
            if list[k].same(id) {
                assert(names(schemes@[i as int].replaces@, id));
                return true;
            }
            k = k + 1;
        }
        i = i + 1;
    }
    false
}

/// A scheme that is given is active exactly if none of the given schemes lists its name among those
/// it replaces.
pub proof fn law_active_unless_listed<'a>(schemes: Seq<&'a Scheme>, scheme: &'a Scheme)
    ensures
        active(schemes, schemes.len()).contains(scheme) <==> schemes.contains(scheme) && (forall|
            i: int,
            j: int,
        |
            0 <= i < schemes.len() && 0 <= j < schemes[i].replaces@.len() ==> (
            #[trigger] schemes[i].replaces@[j]).name@ != scheme.id.name@),
{
    law_active(schemes, schemes.len(), scheme);
    assert(schemes.take(schemes.len() as int) =~= schemes);
    if replaced(schemes, scheme.id) {
        let i = choose|i: int|
            0 <= i < schemes.len() && names((#[trigger] schemes[i]).replaces@, scheme.id);
        let ids = schemes[i].replaces@;
        let j = choose|j: int| 0 <= j < ids.len() && (#[trigger] ids[j]).name@ == scheme.id.name@;
        assert(schemes[i].replaces@[j].name@ == scheme.id.name@);
    } else {
        assert forall|i: int, j: int|
            0 <= i < schemes.len() && 0 <= j < schemes[i].replaces@.len() implies (
        #[trigger] schemes[i].replaces@[j]).name@ != scheme.id.name@ by {
            assert(!names(schemes[i].replaces@, scheme.id));
        }
    }
}

} // verus!
