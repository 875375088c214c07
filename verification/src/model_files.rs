//! Which files of a model directory the backends load.

use vstd::prelude::*;

use crate::text::to_chars;

verus! {

/// Index of the last `c` in `s`, or -1.
pub open spec fn last_index_of(s: Seq<char>, c: char) -> int
    decreases s.len(),
{
    if s.len() == 0 {
        -1
    } else if s.last() == c {
        s.len() - 1
    } else {
        last_index_of(s.drop_last(), c)
    }
}

/// The extension of a file name, as `Path::extension` reads it: the text
/// after the last `.`, unless there is no `.`, or the only `.` starts the
/// name, or the name is `..`.
pub open spec fn extension_of(name: Seq<char>) -> Option<Seq<char>> {
    let k = last_index_of(name, '.');
    if name == seq!['.', '.'] || k <= 0 {
        None
    } else {
        Some(name.skip(k + 1))
    }
}

proof fn lemma_last_index(s: Seq<char>, c: char)
    ensures
        -1 <= last_index_of(s, c) < s.len(),
        last_index_of(s, c) >= 0 ==> s[last_index_of(s, c)] == c,
        forall|j: int| last_index_of(s, c) < j < s.len() ==> s[j] != c,
    decreases s.len(),
{
    if s.len() > 0 && s.last() != c {
        lemma_last_index(s.drop_last(), c);
        assert forall|j: int| last_index_of(s, c) < j < s.len() implies s[j] != c by {
            if j < s.len() - 1 {
                assert(s[j] == s.drop_last()[j]);
            }
        }
    }
}

proof fn lemma_last_index_concat(s: Seq<char>, t: Seq<char>, c: char)
    requires
        !t.contains(c),
    ensures
        last_index_of(s + t, c) == last_index_of(s, c),
    decreases t.len(),
{
    if t.len() > 0 {
        assert((s + t).last() == t.last());
        assert((s + t).drop_last() =~= s + t.drop_last());
        assert(!t.drop_last().contains(c)) by {
            if t.drop_last().contains(c) {
                let j = choose|j: int| 0 <= j < t.drop_last().len() && t.drop_last()[j] == c;
                assert(t[j] == c);
            }
        }
        lemma_last_index_concat(s, t.drop_last(), c);
    } else {
        assert(s + t =~= s);
    }
}

/// The extension of a file name is what follows its last dot: a name made
/// of a non-empty stem, a dot and a dot-free extension has that extension
/// (the name `..` aside), and a name without a dot has none.
pub proof fn lemma_extension_parts(stem: Seq<char>, ext: Seq<char>, name: Seq<char>)
    ensures
        stem.len() > 0 && !ext.contains('.') && stem + seq!['.'] + ext != seq!['.', '.'] ==> extension_of(
            stem + seq!['.'] + ext,
        ) == Some(ext),
        !name.contains('.') ==> extension_of(name) is None,
{
    let n = stem + seq!['.'] + ext;
    if stem.len() > 0 && !ext.contains('.') {
        lemma_last_index_concat(stem + seq!['.'], ext, '.');
        assert((stem + seq!['.']).last() == '.');
        assert(n.skip(stem.len() as int + 1) =~= ext);
    }
    lemma_last_index(name, '.');
    if last_index_of(name, '.') >= 0 {
        assert(name[last_index_of(name, '.')] == '.');
    }
}

/// Position of the last `c` in `s`, if there is one.
fn last_position(s: &Vec<char>, c: char) -> (r: Option<usize>)
    ensures
        match r {
            Some(k) => k == last_index_of(s@, c) && k < s.len() && s@[k as int] == c,
            None => last_index_of(s@, c) == -1,
        },
{
    proof {
        lemma_last_index(s@, c);
    }
    let mut k: usize = s.len();
    while k > 0
        invariant
            k <= s.len(),
            last_index_of(s@, c) < k as int,
            -1 <= last_index_of(s@, c) < s.len(),
            last_index_of(s@, c) >= 0 ==> s@[last_index_of(s@, c)] == c,
            forall|j: int| last_index_of(s@, c) < j < s.len() ==> s@[j] != c,
        decreases k,
    {
        if s[k - 1] == c {
            assert(s@[k - 1] == c);
            return Some(k - 1);
        }
        k -= 1;
    }
    assert(last_index_of(s@, c) == -1);
    None
}

/// Whether the file name `name` has the extension `ext`.
pub fn has_extension(name: &str, ext: &str) -> (r: bool)
    ensures
        r == (extension_of(name@) == Some(ext@)),
{
    let n = to_chars(name);
    let e = to_chars(ext);
    let k = match last_position(&n, '.') {
        Some(k) => k,
        None => {
            return false;
        },
    };
    if k == 0 {
        return false;
    }
    if n.len() == 2 && n[0] == '.' && n[1] == '.' {
        assert(n@ =~= seq!['.', '.']);
        return false;
    }
    assert(n@ != seq!['.', '.']) by {
        if n@ == seq!['.', '.'] {
            assert(n@.len() == 2 && n@[0] == '.' && n@[1] == '.');
        }
    }
    // compare the text after the dot with `ext`
    let start = k + 1;
    assert(extension_of(name@) == Some(n@.skip(start as int)));
    if n.len() - start != e.len() {
        assert(n@.skip(start as int).len() != e@.len());
        return false;
    }
    let mut i: usize = 0;
    while i < e.len()
        invariant
            i <= e.len(),
            start + e.len() == n.len(),
            e@ == ext@,
            n@ == name@,
            extension_of(name@) == Some(n@.skip(start as int)),
            forall|j: int| 0 <= j < i ==> n@[start + j] == e@[j],
        decreases e.len() - i,
    {
        if n[start + i] != e[i] {
            assert(n@.skip(start as int)[i as int] != e@[i as int]);
            return false;
        }
        i += 1;
    }
    assert(n@.skip(start as int) =~= e@);
    true
}

/// File names in the order in which `Path` sorts the entries of one
/// directory: character by character, by code point, a proper prefix first.
pub open spec fn name_lt(a: Seq<char>, b: Seq<char>) -> bool
    decreases a.len(),
{
    if a.len() == 0 {
        b.len() > 0
    } else if b.len() == 0 {
        false
    } else if a[0] != b[0] {
        (a[0] as int) < (b[0] as int)
    } else {
        name_lt(a.drop_first(), b.drop_first())
    }
}

/// No name comes before one to its left.
pub open spec fn names_sorted(s: Seq<Seq<char>>) -> bool {
    forall|i: int, j: int| 0 <= i < j < s.len() ==> !name_lt(#[trigger] s[j], #[trigger] s[i])
}

/// The texts of a list of strings.
pub open spec fn name_views(v: Seq<String>) -> Seq<Seq<char>> {
    v.map_values(|s: String| s@)
}

/// The names of `names` that have the extension `ext`, in their order.
pub open spec fn with_extension(names: Seq<Seq<char>>, ext: Seq<char>) -> Seq<Seq<char>> {
    names.filter(|n: Seq<char>| extension_of(n) == Some(ext))
}

/// No name comes before itself.
pub proof fn lemma_name_lt_irreflexive(a: Seq<char>)
    ensures
        !name_lt(a, a),
    decreases a.len(),
{
    if a.len() > 0 {
        lemma_name_lt_irreflexive(a.drop_first());
    }
}

/// The order of names is transitive.
pub proof fn lemma_name_lt_transitive(a: Seq<char>, b: Seq<char>, c: Seq<char>)
    requires
        name_lt(a, b),
        name_lt(b, c),
    ensures
        name_lt(a, c),
    decreases a.len(),
{
    if a.len() > 0 && b.len() > 0 && c.len() > 0 && a[0] == b[0] && b[0] == c[0] {
        lemma_name_lt_transitive(a.drop_first(), b.drop_first(), c.drop_first());
    }
}

/// Of two different names, one comes before the other.
pub proof fn lemma_name_lt_total(a: Seq<char>, b: Seq<char>)
    requires
        a != b,
    ensures
        name_lt(a, b) || name_lt(b, a),
    decreases a.len(),
{
    if a.len() > 0 && b.len() > 0 && a[0] == b[0] {
        if a.drop_first() == b.drop_first() {
            assert(a =~= seq![a[0]] + a.drop_first());
            assert(b =~= seq![b[0]] + b.drop_first());
        }
        lemma_name_lt_total(a.drop_first(), b.drop_first());
    } else if a.len() > 0 && b.len() > 0 {
        assert((a[0] as int) != (b[0] as int));
    } else if a.len() == 0 && b.len() == 0 {
        assert(a =~= b);
    }
}

/// Names are ordered at their first difference: a common prefix does not
/// decide the order, two names that begin with different characters are
/// ordered by those characters' code points whatever follows them, and a
/// proper prefix comes before the longer name.
pub proof fn lemma_name_lt_lexicographic(p: Seq<char>, a: Seq<char>, b: Seq<char>, x: char, y: char)
    ensures
        name_lt(p + a, p + b) == name_lt(a, b),
        x != y ==> name_lt(seq![x] + a, seq![y] + b) == ((x as int) < (y as int)),
        b.len() > 0 ==> name_lt(a, a + b) && !name_lt(a + b, a),
    decreases p.len(),
{
    let xa = seq![x] + a;
    let yb = seq![y] + b;
    assert(xa[0] == x && yb[0] == y);
    if p.len() > 0 {
        assert((p + a).drop_first() =~= p.drop_first() + a);
        assert((p + b).drop_first() =~= p.drop_first() + b);
        assert((p + a)[0] == p[0] && (p + b)[0] == p[0]);
        lemma_name_lt_lexicographic(p.drop_first(), a, b, x, y);
    } else {
        assert(p + a =~= a && p + b =~= b);
    }
    if b.len() > 0 {
        lemma_proper_prefix_first(a, b);
    }
}

proof fn lemma_proper_prefix_first(a: Seq<char>, b: Seq<char>)
    requires
        b.len() > 0,
    ensures
        name_lt(a, a + b) && !name_lt(a + b, a),
    decreases a.len(),
{
    if a.len() > 0 {
        assert((a + b).drop_first() =~= a.drop_first() + b);
        assert((a + b)[0] == a[0]);
        lemma_proper_prefix_first(a.drop_first(), b);
    } else {
        assert(a + b =~= b);
    }
}

/// Whether the file name `a` comes before `b`.
pub fn name_before(a: &str, b: &str) -> (r: bool)
    ensures
        r == name_lt(a@, b@),
{
    let x = to_chars(a);
    let y = to_chars(b);
    let mut i: usize = 0;
    assert(x@.skip(0) =~= x@ && y@.skip(0) =~= y@);
    while i < x.len() && i < y.len()
        invariant
            i <= x.len(),
            i <= y.len(),
            x@ == a@,
            y@ == b@,
            name_lt(a@, b@) == name_lt(x@.skip(i as int), y@.skip(i as int)),
        decreases x.len() - i,
    {
        let ghost p = x@.skip(i as int);
        let ghost q = y@.skip(i as int);
        assert(p[0] == x@[i as int] && q[0] == y@[i as int]);
        if x[i] != y[i] {
            assert(p[0] != q[0]);
            return x[i] < y[i];
        }
        assert(p.drop_first() =~= x@.skip(i + 1));
        assert(q.drop_first() =~= y@.skip(i + 1));
        i += 1;
    }
    assert(x@.skip(i as int).len() == x.len() - i);
    assert(y@.skip(i as int).len() == y.len() - i);
    i == x.len() && i < y.len()
}

/// The names of `names` that have the extension `ext`, sorted by name.
pub fn sorted_with_extension(names: &Vec<String>, ext: &str) -> (r: Vec<String>)
    ensures
        names_sorted(name_views(r@)),
        name_views(r@).to_multiset() == with_extension(name_views(names@), ext@).to_multiset(),
{
    let ghost src = name_views(names@);
    let ghost pred = |n: Seq<char>| extension_of(n) == Some(ext@);
    let mut out: Vec<String> = Vec::new();
    let mut i: usize = 0;
    proof {
        assert(src.take(0) =~= Seq::<Seq<char>>::empty());
        assert(src.take(0).filter(pred) =~= Seq::<Seq<char>>::empty());
        assert(name_views(out@) =~= Seq::<Seq<char>>::empty());
    }
    while i < names.len()
        invariant
            i <= names.len(),
            src == name_views(names@),
            pred == (|n: Seq<char>| extension_of(n) == Some(ext@)),
            names_sorted(name_views(out@)),
            name_views(out@).to_multiset() == src.take(i as int).filter(pred).to_multiset(),
        decreases names.len() - i,
    {
        let ghost before = src.take(i as int);
        assert(src.take(i + 1) =~= before.push(src[i as int]));
        proof {
            before.lemma_filter_push(src[i as int], pred);
        }
        assert(src[i as int] == names@[i as int]@);
        if has_extension(&names[i], ext) {
            let x = names[i].clone();
            let ghost r = name_views(out@);
            let mut p: usize = 0;
            while p < out.len() && !name_before(&x, &out[p])
                invariant
                    p <= out.len(),
                    r == name_views(out@),
                    forall|j: int| 0 <= j < p ==> !name_lt(x@, #[trigger] r[j]),
                decreases out.len() - p,
            {
                assert(r[p as int] == out@[p as int]@);
                p += 1;
            }
            proof {
                if p < out.len() {
                    assert(r[p as int] == out@[p as int]@);
                    assert(name_lt(x@, r[p as int]));
                }
            }
            out.insert(p, x);
            let ghost nr = name_views(out@);
            assert(nr =~= r.insert(p as int, x@));
            assert forall|a: int, b: int| 0 <= a < b < nr.len() implies !name_lt(
                #[trigger] nr[b],
                #[trigger] nr[a],
            ) by {
                if b < p {
                    assert(nr[a] == r[a] && nr[b] == r[b]);
                } else if b == p {
                    assert(nr[a] == r[a]);
                } else if a < p {
                    assert(nr[a] == r[a] && nr[b] == r[b - 1]);
                    if name_lt(r[b - 1], x@) {
                        assert(name_lt(x@, r[p as int]));
                        lemma_name_lt_transitive(r[b - 1], x@, r[p as int]);
                        if b - 1 == p {
                            lemma_name_lt_irreflexive(r[p as int]);
                        }
                    }
                } else if a == p {
                    assert(nr[b] == r[b - 1]);
                    if name_lt(r[b - 1], x@) {
                        assert(name_lt(x@, r[p as int]));
                        lemma_name_lt_transitive(r[b - 1], x@, r[p as int]);
                        if b - 1 == p {
                            lemma_name_lt_irreflexive(r[p as int]);
                        }
                    }
                } else {
                    assert(nr[a] == r[a - 1] && nr[b] == r[b - 1]);
                }
            }
            proof {
                vstd::seq_lib::to_multiset_insert(r, p as int, x@);
                vstd::seq_lib::to_multiset_build(before.filter(pred), x@);
            }
        }
        i += 1;
    }
    assert(src.take(names.len() as int) =~= src);
    out
}

proof fn lemma_model_onnx_extension()
    ensures
        extension_of("model.onnx"@) == Some("onnx"@),
{
    reveal_strlit("model.onnx");
    reveal_strlit("onnx");
    let s = "model.onnx"@;
    assert(last_index_of(s, '.') == 5) by {
        reveal_with_fuel(last_index_of, 6);
    }
    assert(s.skip(6) =~= "onnx"@);
}

/// Whether `names` holds a name with the extension `ext`.
pub open spec fn any_with_extension(names: Seq<String>, ext: Seq<char>) -> bool {
    exists|j: int| 0 <= j < names.len() && extension_of(#[trigger] names[j]@) == Some(ext)
}

/// The ONNX graph that a model directory with the entries `names` is loaded
/// from: `model.onnx` where it is there, else the first `.onnx` name in
/// name order; `None` where no entry has the extension `onnx`.
pub fn pick_onnx_model(names: &Vec<String>) -> (r: Option<usize>)
    ensures
        r is None <==> !any_with_extension(names@, "onnx"@),
        r matches Some(k) ==> {
            &&& k < names.len()
            &&& extension_of(names@[k as int]@) == Some("onnx"@)
            &&& names@[k as int]@ == "model.onnx"@ || {
                &&& forall|j: int| 0 <= j < names.len() ==> (#[trigger] names@[j])@ != "model.onnx"@
                &&& forall|j: int|
                    0 <= j < names.len() && extension_of((#[trigger] names@[j])@) == Some("onnx"@)
                        ==> !name_lt(names@[j]@, names@[k as int]@)
            }
        },
{
    let preferred = "model.onnx".to_owned();
    let mut best: Option<usize> = None;
    let mut i: usize = 0;
    while i < names.len()
        invariant
            i <= names.len(),
            preferred@ == "model.onnx"@,
            forall|j: int| 0 <= j < i ==> (#[trigger] names@[j])@ != "model.onnx"@,
            best is None <==> !(exists|j: int| 0 <= j < i && extension_of(#[trigger] names@[j]@) == Some("onnx"@)),
            best matches Some(k) ==> {
                &&& k < i
                &&& extension_of(names@[k as int]@) == Some("onnx"@)
                &&& forall|j: int|
                    0 <= j < i && extension_of((#[trigger] names@[j])@) == Some("onnx"@)
                        ==> !name_lt(names@[j]@, names@[k as int]@)
            },
        decreases names.len() - i,
    {
        if names[i] == preferred {
            proof {
                lemma_model_onnx_extension();
            }
            return Some(i);
        }
        if has_extension(&names[i], "onnx") {
            match best {
                None => {
                    best = Some(i);
                    proof {
                        lemma_name_lt_irreflexive(names@[i as int]@);
                    }
                },
                Some(k) => {
                    if name_before(&names[i], &names[k]) {
                        best = Some(i);
                        proof {
                            lemma_name_lt_irreflexive(names@[i as int]@);
                            assert forall|j: int|
                                0 <= j < i + 1 && extension_of((#[trigger] names@[j])@) == Some("onnx"@)
                                implies !name_lt(names@[j]@, names@[i as int]@) by {
                                if j < i && name_lt(names@[j]@, names@[i as int]@) {
                                    lemma_name_lt_transitive(names@[j]@, names@[i as int]@, names@[k as int]@);
                                }
                            }
                        }
                    }
                },
            }
        }
        i += 1;
    }
    best
}

/// Whether `prefix` starts `s`.
pub fn starts_with_text(s: &str, prefix: &str) -> (r: bool)
    ensures
        r == prefix@.is_prefix_of(s@),
{
    let x = to_chars(s);
    let p = to_chars(prefix);
    if p.len() > x.len() {
        return false;
    }
    let mut i: usize = 0;
    while i < p.len()
        invariant
            i <= p.len() <= x.len(),
            x@ == s@,
            p@ == prefix@,
            forall|j: int| 0 <= j < i ==> x@[j] == p@[j],
        decreases p.len() - i,
    {
        if x[i] != p[i] {
            return false;
        }
        i += 1;
    }
    assert(x@.take(p.len() as int) =~= p@);
    true
}

/// Whether a tensor of a weights file is loaded: the checkpoint's
/// `original.` copies are left out.
pub fn keep_weight_key(key: &str) -> (r: bool)
    ensures
        r == !"original."@.is_prefix_of(key@),
{
    !starts_with_text(key, "original.")
}

/// Whether a model directory is complete: it has `config.json` and
/// `tokenizer.json`, and an entry with the extension `safetensors`.
pub fn has_model_files(has_config: bool, has_tokenizer: bool, names: &Vec<String>) -> (r: bool)
    ensures
        r == (has_config && has_tokenizer && any_with_extension(names@, "safetensors"@)),
{
    if !has_config || !has_tokenizer {
        return false;
    }
    let mut i: usize = 0;
    while i < names.len()
        invariant
            i <= names.len(),
            has_config && has_tokenizer,
            forall|j: int| 0 <= j < i ==> extension_of(#[trigger] names@[j]@) != Some("safetensors"@),
        decreases names.len() - i,
    {
        if has_extension(&names[i], "safetensors") {
            return true;
        }
        i += 1;
    }
    assert(!any_with_extension(names@, "safetensors"@)) by {
        if any_with_extension(names@, "safetensors"@) {
            let j = choose|j: int|
                0 <= j < names.len() && extension_of(#[trigger] names@[j]@) == Some("safetensors"@);
            assert(extension_of(names@[j]@) != Some("safetensors"@));
        }
    }
    false
}

} // verus!
