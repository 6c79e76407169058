use vstd::prelude::*;
use vstd::string::{StrSliceExecFns, StringExecFns};
use crate::polyhedron::face::FaceTypeSignature;
use crate::polyhedron::name::letter;
use super::Shape;
use super::cycles::signature::signatures;

verus! {

/// One face type available to look through in a Schlegel diagram: the first face of that type,
/// the type, how many faces have it, and its label.
#[derive(Debug)]
pub struct FaceTypeOption {
    pub face_index: usize,
    pub signature: FaceTypeSignature,
    pub count: usize,
    pub label: String,
}

impl View for FaceTypeOption {
    type V = (usize, (usize, Seq<usize>), usize, Seq<char>);

    open spec fn view(&self) -> (usize, (usize, Seq<usize>), usize, Seq<char>) {
        (self.face_index, self.signature@, self.count, self.label@)
    }
}

/// The type of face `i`: its side count and its neighbors' sorted side counts.
pub open spec fn face_type(fs: Seq<Seq<usize>>, i: int) -> (usize, Seq<usize>) {
    (fs[i].len() as usize, signatures(fs)[i])
}

/// The decimal digits.
pub open spec fn digits() -> Seq<char> {
    seq!['0', '1', '2', '3', '4', '5', '6', '7', '8', '9']
}

/// `n` written in decimal.
pub open spec fn decimal(n: nat) -> Seq<char>
    decreases n,
{
    if n < 10 {
        seq![digits()[n as int]]
    } else {
        decimal(n / 10).push(digits()[(n % 10) as int])
    }
}

/// The numbers of `s` in decimal, separated by commas.
pub open spec fn joined(s: Seq<usize>) -> Seq<char>
    decreases s.len(),
{
    if s.len() == 0 {
        Seq::empty()
    } else if s.len() == 1 {
        decimal(s[0] as nat)
    } else {
        joined(s.drop_last()) + seq![','] + decimal(s.last() as nat)
    }
}

/// The label of a face type, such as `4-gon (3,3,4,4)`.
pub open spec fn type_label(t: (usize, Seq<usize>)) -> Seq<char> {
    decimal(t.0 as nat) + seq!['-', 'g', 'o', 'n', ' ', '('] + joined(t.1) + seq![')']
}

/// Index of the first option of type `t`, or -1.
pub open spec fn find_type(opts: Seq<(usize, (usize, Seq<usize>), usize, Seq<char>)>, t: (usize, Seq<usize>)) -> int
    decreases opts.len(),
{
    if opts.len() == 0 {
        -1
    } else if opts[0].1 == t {
        0
    } else {
        let k = find_type(opts.drop_first(), t);
        if k < 0 { -1 } else { k + 1 }
    }
}

/// The face type options after visiting the faces below `g` in order: a type seen before counts
/// one more face, a new type is added with this face, a count of one and its label.
pub open spec fn options_upto(fs: Seq<Seq<usize>>, g: nat) -> Seq<(usize, (usize, Seq<usize>), usize, Seq<char>)>
    decreases g,
{
    if g == 0 {
        Seq::empty()
    } else {
        let prev = options_upto(fs, (g - 1) as nat);
        let t = face_type(fs, g - 1);
        let k = find_type(prev, t);
        if k >= 0 {
            prev.update(k, (prev[k].0, prev[k].1, (prev[k].2 + 1) as usize, prev[k].3))
        } else {
            prev.push(((g - 1) as usize, t, 1usize, type_label(t)))
        }
    }
}

proof fn lemma_find_type(opts: Seq<(usize, (usize, Seq<usize>), usize, Seq<char>)>, t: (usize, Seq<usize>), k: int)
    requires
        0 <= k <= opts.len(),
        forall|j: int| 0 <= j < k ==> (#[trigger] opts[j]).1 != t,
        k < opts.len() ==> opts[k].1 == t,
    ensures
        find_type(opts, t) == (if k < opts.len() { k } else { -1 }),
    decreases opts.len(),
{
    if opts.len() > 0 && k > 0 {
        assert forall|j: int| 0 <= j < k - 1 implies (#[trigger] opts.drop_first()[j]).1 != t by {
            assert(opts.drop_first()[j] == opts[j + 1]);
        }
        lemma_find_type(opts.drop_first(), t, k - 1);
    }
}

/// The number a string of decimal digits stands for, most significant digit first.
pub open spec fn read_decimal(s: Seq<char>) -> int
    decreases s.len(),
{
    if s.len() == 0 {
        0
    } else {
        read_decimal(s.drop_last()) * 10 + ((s.last() as u32) - ('0' as u32))
    }
}

proof fn lemma_digit(d: int)
    requires
        0 <= d < 10,
    ensures
        (digits()[d] as u32) - ('0' as u32) == d,
        '0' <= digits()[d] <= '9',
{
    if d == 0 {
        assert(digits()[d] == '0');
    } else if d == 1 {
        assert(digits()[d] == '1');
    } else if d == 2 {
        assert(digits()[d] == '2');
    } else if d == 3 {
        assert(digits()[d] == '3');
    } else if d == 4 {
        assert(digits()[d] == '4');
    } else if d == 5 {
        assert(digits()[d] == '5');
    } else if d == 6 {
        assert(digits()[d] == '6');
    } else if d == 7 {
        assert(digits()[d] == '7');
    } else if d == 8 {
        assert(digits()[d] == '8');
    } else {
        assert(digits()[d] == '9');
    }
}

/// `decimal(n)` is a non-empty string of the digits `0` to `9` that reads back as `n`, with no
/// leading zero unless it is `0` itself.
pub proof fn law_decimal_reads_back(n: nat)
    ensures
        decimal(n).len() >= 1,
        forall|i: int| 0 <= i < decimal(n).len() ==> '0' <= #[trigger] decimal(n)[i] <= '9',
        read_decimal(decimal(n)) == n,
        decimal(n).len() == 1 <==> n < 10,
        decimal(n).len() > 1 ==> decimal(n)[0] != '0',
    decreases n,
{
    if n < 10 {
        lemma_digit(n as int);
        let s = decimal(n);
        assert(s.drop_last() =~= Seq::<char>::empty());
        assert(s.last() == digits()[n as int]);
        assert(read_decimal(s) == read_decimal(s.drop_last()) * 10 + ((s.last() as u32) - ('0' as u32)));
    } else {
        law_decimal_reads_back(n / 10);
        lemma_digit((n % 10) as int);
        let s = decimal(n);
        assert(s.drop_last() =~= decimal(n / 10));
        assert(n == (n / 10) * 10 + n % 10) by (nonlinear_arith);
        assert(s.last() == digits()[(n % 10) as int]);
        assert(read_decimal(s) == read_decimal(s.drop_last()) * 10 + ((s.last() as u32) - ('0' as u32)));
        assert forall|i: int| 0 <= i < s.len() implies '0' <= #[trigger] s[i] <= '9' by {
            if i < s.len() - 1 {
                assert(s[i] == decimal(n / 10)[i]);
            }
        }
        assert(s[0] == decimal(n / 10)[0]);
        if decimal(n / 10).len() == 1 {
            assert(n / 10 >= 1);
            lemma_digit((n / 10) as int);
        }
    }
}

/// How many of the faces below `g` have side count `t.0` and neighbor side counts `t.1`.
pub open spec fn faces_of_type(fs: Seq<Seq<usize>>, t: (usize, Seq<usize>), g: nat) -> nat
    decreases g,
{
    if g == 0 {
        0
    } else {
        faces_of_type(fs, t, (g - 1) as nat) + if (fs[g - 1].len() as usize, signatures(fs)[g - 1]) == t { 1nat } else { 0nat }
    }
}

proof fn lemma_find_type_result(opts: Seq<(usize, (usize, Seq<usize>), usize, Seq<char>)>, t: (usize, Seq<usize>))
    ensures
        -1 <= find_type(opts, t) < opts.len(),
        find_type(opts, t) >= 0 ==> opts[find_type(opts, t)].1 == t,
        find_type(opts, t) < 0 ==> forall|j: int| 0 <= j < opts.len() ==> (#[trigger] opts[j]).1 != t,
    decreases opts.len(),
{
    if opts.len() > 0 {
        lemma_find_type_result(opts.drop_first(), t);
        if find_type(opts, t) < 0 {
            assert forall|j: int| 0 <= j < opts.len() implies (#[trigger] opts[j]).1 != t by {
                if j > 0 {
                    assert(opts[j] == opts.drop_first()[j - 1]);
                }
            }
        } else if opts[0].1 != t {
            assert(opts[find_type(opts, t)] == opts.drop_first()[find_type(opts, t) - 1]);
        }
    }
}

proof fn lemma_faces_of_type_bound(fs: Seq<Seq<usize>>, t: (usize, Seq<usize>), g: nat)
    ensures
        faces_of_type(fs, t, g) <= g,
        (forall|i: int| 0 <= i < g ==> (fs[i].len() as usize, signatures(fs)[i]) != t) ==> faces_of_type(fs, t, g) == 0,
    decreases g,
{
    if g > 0 {
        lemma_faces_of_type_bound(fs, t, (g - 1) as nat);
    }
}

/// The options after the faces below `g`: each is the type (side count, sorted neighbor side
/// counts) of its first face, no earlier face has that type, its count is the number of faces
/// of that type, its label names the type, no two options share a type, and every face's type
/// has an option.
#[verifier::rlimit(50)]
proof fn lemma_options(fs: Seq<Seq<usize>>, g: nat)
    requires
        g <= fs.len(),
        fs.len() <= usize::MAX,
    ensures
        ({
            let opts = options_upto(fs, g);
            &&& forall|j: int| 0 <= j < opts.len() ==> {
                let o = #[trigger] opts[j];
                &&& o.0 < g
                &&& o.1 == (fs[o.0 as int].len() as usize, signatures(fs)[o.0 as int])
                &&& forall|i: int| 0 <= i < o.0 ==> (fs[i].len() as usize, signatures(fs)[i]) != o.1
                &&& o.2 == faces_of_type(fs, o.1, g)
                &&& o.3 == type_label(o.1)
            }
            &&& forall|j1: int, j2: int| 0 <= j1 < j2 < opts.len() ==> (#[trigger] opts[j1]).1 != (#[trigger] opts[j2]).1
            &&& forall|i: int| #![trigger signatures(fs)[i]] 0 <= i < g ==> exists|j: int| 0 <= j < opts.len() && (#[trigger] opts[j]).1 == (fs[i].len() as usize, signatures(fs)[i])
        }),
    decreases g,
{
    if g > 0 {
        let h = (g - 1) as nat;
        lemma_options(fs, h);
        let prev = options_upto(fs, h);
        let t = face_type(fs, h as int);
        let opts = options_upto(fs, g);
        lemma_find_type_result(prev, t);
        let k = find_type(prev, t);
        if k >= 0 {
            lemma_faces_of_type_bound(fs, t, h);
            assert forall|j: int| 0 <= j < opts.len() implies {
                let o = #[trigger] opts[j];
                &&& o.0 < g
                &&& o.1 == (fs[o.0 as int].len() as usize, signatures(fs)[o.0 as int])
                &&& forall|i: int| 0 <= i < o.0 ==> (fs[i].len() as usize, signatures(fs)[i]) != o.1
                &&& o.2 == faces_of_type(fs, o.1, g)
                &&& o.3 == type_label(o.1)
            } by {
                let p = prev[j];
                if j != k {
                    assert(p.1 != t) by {
                        if j < k {
                            assert(prev[j].1 != prev[k].1);
                        } else {
                            assert(prev[k].1 != prev[j].1);
                        }
                    }
                }
            }
            assert forall|j1: int, j2: int| 0 <= j1 < j2 < opts.len() implies (#[trigger] opts[j1]).1 != (#[trigger] opts[j2]).1 by {
                assert(prev[j1].1 != prev[j2].1);
            }
            assert forall|i: int| #![trigger signatures(fs)[i]] 0 <= i < g implies exists|j: int| 0 <= j < opts.len() && (#[trigger] opts[j]).1 == (fs[i].len() as usize, signatures(fs)[i]) by {
                if i < h {
                    let j = choose|j: int| 0 <= j < prev.len() && (#[trigger] prev[j]).1 == (fs[i].len() as usize, signatures(fs)[i]);
                    assert(opts[j].1 == prev[j].1);
                } else {
                    assert(opts[k].1 == t);
                }
            }
        } else {
            assert forall|i: int| 0 <= i < h implies (fs[i].len() as usize, signatures(fs)[i]) != t by {
                if (fs[i].len() as usize, signatures(fs)[i]) == t {
                    let j = choose|j: int| 0 <= j < prev.len() && (#[trigger] prev[j]).1 == (fs[i].len() as usize, signatures(fs)[i]);
                    assert(prev[j].1 != t);
                }
            }
            lemma_faces_of_type_bound(fs, t, h);
            assert forall|j: int| 0 <= j < opts.len() implies {
                let o = #[trigger] opts[j];
                &&& o.0 < g
                &&& o.1 == (fs[o.0 as int].len() as usize, signatures(fs)[o.0 as int])
                &&& forall|i: int| 0 <= i < o.0 ==> (fs[i].len() as usize, signatures(fs)[i]) != o.1
                &&& o.2 == faces_of_type(fs, o.1, g)
                &&& o.3 == type_label(o.1)
            } by {
                if j < prev.len() {
                    assert(opts[j] == prev[j]);
                    assert(prev[j].1 != t);
                }
            }
            assert forall|j1: int, j2: int| 0 <= j1 < j2 < opts.len() implies (#[trigger] opts[j1]).1 != (#[trigger] opts[j2]).1 by {
                if j2 < prev.len() {
                    assert(prev[j1].1 != prev[j2].1);
                } else {
                    assert(prev[j1].1 != t);
                }
            }
            assert forall|i: int| #![trigger signatures(fs)[i]] 0 <= i < g implies exists|j: int| 0 <= j < opts.len() && (#[trigger] opts[j]).1 == (fs[i].len() as usize, signatures(fs)[i]) by {
                if i < h {
                    let j = choose|j: int| 0 <= j < prev.len() && (#[trigger] prev[j]).1 == (fs[i].len() as usize, signatures(fs)[i]);
                    assert(opts[j].1 == prev[j].1);
                } else {
                    assert(opts[prev.len() as int].1 == t);
                }
            }
        }
    }
}

/// The Schlegel options group the faces by type: each option carries the side count and sorted
/// neighbor side counts of its first face (no earlier face has that type), counts exactly the
/// faces of that type and is labelled by it; no two options share a type, and every face's type
/// has an option.
pub proof fn law_schlegel_options_group_by_type(fs: Seq<Seq<usize>>)
    requires
        fs.len() <= usize::MAX,
    ensures
        ({
            let opts = options_upto(fs, fs.len());
            &&& forall|j: int| 0 <= j < opts.len() ==> {
                let o = #[trigger] opts[j];
                &&& o.0 < fs.len()
                &&& o.1 == (fs[o.0 as int].len() as usize, signatures(fs)[o.0 as int])
                &&& forall|i: int| 0 <= i < o.0 ==> (fs[i].len() as usize, signatures(fs)[i]) != o.1
                &&& o.2 == faces_of_type(fs, o.1, fs.len())
                &&& o.3 == type_label(o.1)
            }
            &&& forall|j1: int, j2: int| 0 <= j1 < j2 < opts.len() ==> (#[trigger] opts[j1]).1 != (#[trigger] opts[j2]).1
            &&& forall|i: int| #![trigger signatures(fs)[i]] 0 <= i < fs.len() ==> exists|j: int| 0 <= j < opts.len() && (#[trigger] opts[j]).1 == (fs[i].len() as usize, signatures(fs)[i])
        }),
{
    lemma_options(fs, fs.len());
}

fn digit(d: usize) -> (c: char)
    requires
        d < 10,
    ensures
        c == digits()[d as int],
{
    match d {
        0 => '0',
        1 => '1',
        2 => '2',
        3 => '3',
        4 => '4',
        5 => '5',
        6 => '6',
        7 => '7',
        8 => '8',
        _ => '9',
    }
}

/// `n` in decimal.
pub fn decimal_string(n: usize) -> (r: String)
    ensures
        r@ == decimal(n as nat),
    decreases n,
{
    if n < 10 {
        letter(digit(n))
    } else {
        let mut r = decimal_string(n / 10);
        let last = letter(digit(n % 10));
        r.append(last.as_str());
        r
    }
}

/// The label of a face type, such as `4-gon (3,3,4,4)`.
pub fn label_of(signature: &FaceTypeSignature) -> (r: String)
    ensures
        r@ == type_label(signature@),
{
    let mut r = decimal_string(signature.side_count);
    let gon = "-gon (";
    let comma = ",";
    let close = ")";
    proof {
        reveal_strlit("-gon (");
        reveal_strlit(",");
        reveal_strlit(")");
    }
    r.append(gon);
    let ghost head = r@;
    let ns = &signature.neighbor_sides;
    let mut k: usize = 0;
    while k < ns.len()
        invariant
            k <= ns@.len(),
            r@ == head + joined(ns@.take(k as int)),
            comma@ == seq![','],
        decreases ns@.len() - k,
    {
        proof {
            assert(ns@.take(k + 1).drop_last() =~= ns@.take(k as int));
        }
        if k > 0 {
            r.append(comma);
        }
        let d = decimal_string(ns[k]);
        r.append(d.as_str());
        proof {
            if k == 0 {
                assert(joined(ns@.take(1)) == decimal(ns@[0] as nat));
                assert(r@ =~= head + joined(ns@.take(1)));
            } else {
                assert(r@ =~= head + joined(ns@.take(k + 1)));
            }
        }
        k += 1;
    }
    assert(ns@.take(k as int) =~= ns@);
    r.append(close);
    assert(r@ =~= type_label(signature@));
    r
}

impl Shape {
    /// Groups the faces into distinct types, for choosing the face a Schlegel diagram looks
    /// through: each type once, in the order of its first face, with how many faces have it and
    /// its label.
    pub fn schlegel_face_options(&self) -> (r: Vec<FaceTypeOption>)
        ensures
            r@.map_values(|o: FaceTypeOption| o@) == options_upto(self.faces(), self.faces().len()),
    {
        let ghost fs = self.faces();
        let neighbor_sides = self.cycles.neighbor_signatures();
        let raw = self.cycles.raw();
        assert(self.cycles.faces() == fs);
        let mut options: Vec<FaceTypeOption> = Vec::new();
        let mut i: usize = 0;
        while i < raw.len()
            invariant
                raw@.map_values(|c: Vec<usize>| c@) == fs,
                raw@.len() == fs.len(),
                neighbor_sides@.len() == fs.len(),
                forall|q: int| 0 <= q < neighbor_sides@.len() ==> #[trigger] neighbor_sides@[q]@ == signatures(fs)[q],
                i <= raw@.len(),
                options@.map_values(|o: FaceTypeOption| o@) == options_upto(fs, i as nat),
                forall|q: int| 0 <= q < options@.len() ==> #[trigger] options@[q].count <= i,
            decreases raw@.len() - i,
        {
            let ghost prev = options_upto(fs, i as nat);
            let ghost t = face_type(fs, i as int);
            assert(fs[i as int] == raw@[i as int]@);
            let signature = FaceTypeSignature {
                side_count: raw[i].len(),
                neighbor_sides: copy_values(&neighbor_sides[i]),
            };
            assert(signature@ == t);
            let mut k: usize = 0;
            let mut found = false;
            while k < options.len()
                invariant_except_break
                    !found,
                invariant
                    options@.map_values(|o: FaceTypeOption| o@) == prev,
                    signature@ == t,
                    k <= options@.len(),
                    forall|j: int| 0 <= j < k ==> (#[trigger] prev[j]).1 != t,
                ensures
                    options@.map_values(|o: FaceTypeOption| o@) == prev,
                    k <= options@.len(),
                    forall|j: int| 0 <= j < k ==> (#[trigger] prev[j]).1 != t,
                    found ==> k < options@.len() && prev[k as int].1 == t,
                    !found ==> k == options@.len(),
                decreases options@.len() - k,
            {
                assert(prev[k as int] == options@[k as int]@);
                if options[k].signature.same_as(&signature) {
                    found = true;
                    break;
                }
                k += 1;
            }
            proof {
                lemma_find_type(prev, t, k as int);
            }
            if found {
                let mut o = options.remove(k);
                o.count = o.count + 1;
                options.insert(k, o);
                proof {
                    assert(options@.map_values(|o: FaceTypeOption| o@) =~= options_upto(fs, (i + 1) as nat));
                }
            } else {
                let label = label_of(&signature);
                options.push(FaceTypeOption { face_index: i, signature, count: 1, label });
                proof {
                    assert(options@.map_values(|o: FaceTypeOption| o@) =~= options_upto(fs, (i + 1) as nat));
                }
            }
            i += 1;
        }
        options
    }
}

/// A copy of a list of numbers.
fn copy_values(v: &Vec<usize>) -> (r: Vec<usize>)
    ensures
        r@ == v@,
{
    let mut r: Vec<usize> = Vec::new();
    let mut i: usize = 0;
    while i < v.len()
        invariant
            i <= v@.len(),
            r@ == v@.take(i as int),
        decreases v@.len() - i,
    {
        r.push(v[i]);
        i += 1;
        assert(r@ =~= v@.take(i as int));
    }
    assert(v@.take(i as int) =~= v@);
    r
}

} // verus!
