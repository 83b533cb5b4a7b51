//! Property inheritance: a child keeps its own properties and takes each
//! parent property it neither defines nor excludes.

use vstd::prelude::*;

use crate::identifier::PropertyName;
use crate::property::{Property, PropertyMap};

verus! {

/// The properties a child with `child` and `excludes` resolves to under a
/// parent with `parent`.
pub open spec fn inherited(
    parent: Map<Seq<char>, Property>,
    child: Map<Seq<char>, Property>,
    excluded: Set<Seq<char>>,
) -> Map<Seq<char>, Property> {
    Map::new(
        |k: Seq<char>| child.contains_key(k) || (parent.contains_key(k) && !excluded.contains(k)),
        |k: Seq<char>| if child.contains_key(k) { child[k] } else { parent[k] },
    )
}

/// The texts of the excluded names.
pub open spec fn excluded_texts(excludes: Seq<PropertyName>) -> Set<Seq<char>> {
    Set::new(|k: Seq<char>| exists|i: int| 0 <= i < excludes.len() && #[trigger] excludes[i]@ == k)
}

/// Merges parent and child properties following the inheritance rules.
#[derive(Debug)]
pub struct Merger;

impl Merger {
    /// A child's resolved properties: its own properties unchanged, plus
    /// every parent property it does not define and does not exclude.
    pub fn inherit_properties(parent: &PropertyMap, child: &PropertyMap, excludes: &[PropertyName]) -> (r: PropertyMap)
        requires
            parent.wf(),
            child.wf(),
        ensures
            r.wf(),
            r@ == inherited(parent@, child@, excluded_texts(excludes@)),
    {
        proof {
            parent.lemma_view();
            child.lemma_view();
        }
        let mut result = PropertyMap::new();
        let ce = child.entries();
        let mut i: usize = 0;
        while i < ce.len()
            invariant
                0 <= i <= ce@.len(),
                child.wf(),
                ce@.len() == child.pairs().len(),
                forall|j: int| 0 <= j < ce@.len() ==> (#[trigger] ce@[j]).0@ == child.pairs()[j].0 && ce@[j].1 == child.pairs()[j].1,
                crate::property::keys_unique(child.pairs()),
                forall|j: int| 0 <= j < child.pairs().len() ==> #[trigger] child@[child.pairs()[j].0] == child.pairs()[j].1,
                forall|k: Seq<char>| #[trigger] child@.contains_key(k) <==> exists|j: int| 0 <= j < child.pairs().len() && #[trigger] child.pairs()[j].0 == k,
                result.wf(),
                forall|k: Seq<char>| #[trigger] result@.contains_key(k) <==> exists|j: int| 0 <= j < i && #[trigger] child.pairs()[j].0 == k,
                forall|k: Seq<char>| #[trigger] result@.contains_key(k) ==> result@[k] == child@[k],
            decreases ce@.len() - i,
        {
            let name = ce[i].0.clone();
            let prop = ce[i].1.clone();
            result.insert(name, prop);
            proof {
                assert forall|k: Seq<char>| #[trigger] result@.contains_key(k) <==> exists|j: int| 0 <= j < i + 1 && #[trigger] child.pairs()[j].0 == k by {
                    if k == child.pairs()[i as int].0 {
                        assert(child.pairs()[i as int].0 == k);
                    }
                }
            }
            i = i + 1;
        }
        proof {
            assert forall|k: Seq<char>| #[trigger] result@.contains_key(k) <==> child@.contains_key(k) by {}
        }
        let pe = parent.entries();
        let mut q: usize = 0;
        while q < pe.len()
            invariant
                0 <= q <= pe@.len(),
                parent.wf(),
                pe@.len() == parent.pairs().len(),
                forall|j: int| 0 <= j < pe@.len() ==> (#[trigger] pe@[j]).0@ == parent.pairs()[j].0 && pe@[j].1 == parent.pairs()[j].1,
                crate::property::keys_unique(parent.pairs()),
                forall|j: int| 0 <= j < parent.pairs().len() ==> #[trigger] parent@[parent.pairs()[j].0] == parent.pairs()[j].1,
                forall|k: Seq<char>| #[trigger] parent@.contains_key(k) <==> exists|j: int| 0 <= j < parent.pairs().len() && #[trigger] parent.pairs()[j].0 == k,
                result.wf(),
                forall|k: Seq<char>| #[trigger] result@.contains_key(k) <==> child@.contains_key(k) || (!excluded_texts(excludes@).contains(k)
                    && exists|j: int| 0 <= j < q && #[trigger] parent.pairs()[j].0 == k),
                forall|k: Seq<char>| #[trigger] result@.contains_key(k) ==> result@[k] == (if child@.contains_key(k) { child@[k] } else { parent@[k] }),
            decreases pe@.len() - q,
        {
            let name = &pe[q].0;
            let mut excluded = false;
            let mut e: usize = 0;
            while e < excludes.len()
                invariant
                    0 <= e <= excludes@.len(),
                    !excluded ==> forall|t: int| 0 <= t < e ==> #[trigger] excludes@[t]@ != name@,
                    excluded ==> excluded_texts(excludes@).contains(name@),
                decreases excludes@.len() - e,
            {
                if !excluded && excludes[e].same(name) {
                    excluded = true;
                    assert(excludes@[e as int]@ == name@);
                }
                e = e + 1;
            }
            if !excluded && !result.has(name) {
                result.insert(name.clone(), pe[q].1.clone());
            }
            proof {
                let k0 = parent.pairs()[q as int].0;
                assert(name@ == k0);
                assert(!excluded ==> !excluded_texts(excludes@).contains(k0));
                assert forall|k: Seq<char>| #[trigger] result@.contains_key(k) <==> child@.contains_key(k) || (!excluded_texts(excludes@).contains(k)
                    && exists|j: int| 0 <= j < q + 1 && #[trigger] parent.pairs()[j].0 == k) by {
                    if k == k0 {
                        assert(parent.pairs()[q as int].0 == k);
                    }
                }
            }
            q = q + 1;
        }
        proof {
            let target = inherited(parent@, child@, excluded_texts(excludes@));
            assert(result@ =~= target) by {
                assert forall|k: Seq<char>| result@.contains_key(k) <==> target.contains_key(k) by {}
            }
        }
        result
    }
}


/// What inheriting gives (`Merger::inherit_properties`): the child keeps
/// every property it defines as it defines it; every excluded name the child
/// does not define is absent, whichever position it has in the exclusion
/// list; every other parent property is inherited unchanged; and nothing
/// else appears.
pub proof fn lemma_inherit_properties(
    parent: Map<Seq<char>, Property>,
    child: Map<Seq<char>, Property>,
    excludes: Seq<PropertyName>,
    r: Map<Seq<char>, Property>,
)
    requires
        r == inherited(parent, child, excluded_texts(excludes)),
    ensures
        forall|k: Seq<char>| #[trigger] child.contains_key(k) ==> r.contains_key(k) && r[k] == child[k],
        forall|i: int|
            0 <= i < excludes.len() && !child.contains_key(#[trigger] excludes[i]@) ==> !r.contains_key(excludes[i]@),
        forall|k: Seq<char>|
            #[trigger] parent.contains_key(k) && !child.contains_key(k) && (forall|i: int| 0 <= i < excludes.len() ==> excludes[i]@ != k)
                ==> r.contains_key(k) && r[k] == parent[k],
        forall|k: Seq<char>| #[trigger] r.contains_key(k) ==> child.contains_key(k) || parent.contains_key(k),
{
    assert forall|i: int| 0 <= i < excludes.len() && !child.contains_key(#[trigger] excludes[i]@) implies !r.contains_key(
        excludes[i]@,
    ) by {
        assert(excluded_texts(excludes).contains(excludes[i]@));
    }
}

} // verus!
