use vstd::prelude::*;

verus! {

/// The objects that a ray is inside of, innermost last, once it has passed the
/// first `k` intersections whose objects are listed in `objects`. Passing an
/// intersection with an object that the ray is inside of leaves it; passing any
/// other enters it.
pub open spec fn containers_after(objects: Seq<usize>, k: int) -> Seq<usize>
    decreases k,
{
    if k <= 0 || k > objects.len() {
        Seq::empty()
    } else {
        let before = containers_after(objects, k - 1);
        let o = objects[k - 1];
        if before.contains(o) {
            before.filter(|x: usize| x != o)
        } else {
            before.push(o)
        }
    }
}

/// The innermost object of a list of containers, if there is one.
pub open spec fn innermost(containers: Seq<usize>) -> Option<usize> {
    if containers.len() == 0 {
        None
    } else {
        Some(containers.last())
    }
}

/// The two media at an intersection: `exited` is the object whose refractive
/// index the ray leaves (n1), `entered` the one it passes into (n2). `None`
/// stands for empty space, of refractive index 1.
#[derive(Debug, Clone, Copy, PartialEq, Eq, Structural)]
pub struct Boundary {
    pub exited: Option<usize>,
    pub entered: Option<usize>,
}

/// The boundary that the intersection at position `hit` of a list of
/// intersections lies on, given the object of each intersection in order.
pub open spec fn boundary_spec(objects: Seq<usize>, hit: int) -> Boundary {
    if 0 <= hit < objects.len() {
        Boundary {
            exited: innermost(containers_after(objects, hit)),
            entered: innermost(containers_after(objects, hit + 1)),
        }
    } else {
        Boundary { exited: None, entered: None }
    }
}

/// Whether `v` holds `o`.
pub(crate) fn holds(v: &Vec<usize>, o: usize) -> (r: bool)
    ensures
        r == v@.contains(o),
{
    let mut i: usize = 0;
    while i < v.len()
        invariant
            i <= v.len(),
            forall|j: int| 0 <= j < i ==> v@[j] != o,
        decreases v.len() - i,
    {
        if v[i] == o {
            return true;
        }
        i += 1;
    }
    false
}

/// `v` with every occurrence of `o` taken out, the rest in order.
fn without(v: &Vec<usize>, o: usize) -> (r: Vec<usize>)
    ensures
        r@ == v@.filter(|x: usize| x != o),
{
    let ghost pred = |x: usize| x != o;
    let mut r: Vec<usize> = Vec::new();
    let mut i: usize = 0;
    while i < v.len()
        invariant
            i <= v.len(),
            pred == (|x: usize| x != o),
            r@ == v@.take(i as int).filter(pred),
        decreases v.len() - i,
    {
        proof {
            assert(v@.take(i as int + 1) == v@.take(i as int).push(v@[i as int]));
            v@.take(i as int).lemma_filter_push(v@[i as int], pred);
        }
        if v[i] != o {
            r.push(v[i]);
        }
        i += 1;
    }
    assert(v@.take(v@.len() as int) == v@);
    r
}

/// The last element of `v`, if any.
fn last_of(v: &Vec<usize>) -> (r: Option<usize>)
    ensures
        r == innermost(v@),
{
    if v.len() == 0 {
        None
    } else {
        Some(v[v.len() - 1])
    }
}

/// Finds the media on either side of the intersection at position `hit`,
/// walking the intersections in order and keeping the objects that the ray is
/// inside of. Where `hit` is past the end, both sides are empty space.
pub fn refraction_boundary(objects: &Vec<usize>, hit: usize) -> (r: Boundary)
    ensures
        r == boundary_spec(objects@, hit as int),
{
    if hit >= objects.len() {
        return Boundary { exited: None, entered: None };
    }
    let mut containers: Vec<usize> = Vec::new();
    let mut i: usize = 0;
    while i < hit
        invariant
            i <= hit < objects.len(),
            containers@ == containers_after(objects@, i as int),
        decreases hit - i,
    {
        containers = step(&containers, objects[i]);
        i += 1;
    }
    let exited = last_of(&containers);
    containers = step(&containers, objects[hit]);
    let entered = last_of(&containers);
    Boundary { exited, entered }
}

/// The containers after passing one more intersection, with object `o`.
fn step(containers: &Vec<usize>, o: usize) -> (r: Vec<usize>)
    ensures
        r@ == (if containers@.contains(o) {
            containers@.filter(|x: usize| x != o)
        } else {
            containers@.push(o)
        }),
{
    if holds(containers, o) {
        without(containers, o)
    } else {
        let mut r = containers.clone();
        r.push(o);
        r
    }
}

} // verus!
