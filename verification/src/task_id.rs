//! Hierarchical task identifiers.
//!
//! An identifier is a sequence of 1-based sibling indices; the root is the
//! empty sequence. Its text form is the dot-joined decimal rendering of the
//! indices, and the empty text denotes the root.

use vstd::prelude::*;

use crate::digits::{
    all_digits, dec_rep, is_digit, lemma_dec_rep_val, lemma_seg_val_prefix, push_u64, seg_val,
};
use crate::error::{Error, ErrorView};

verus! {

/// The position of the first `.` in `s`, or the length of `s` if none occurs.
pub open spec fn first_seg_len(s: Seq<char>) -> int
    decreases s.len(),
{
    if s.len() == 0 {
        0
    } else if s[0] == '.' {
        0
    } else {
        1 + first_seg_len(s.skip(1))
    }
}

/// The first segment runs up to the first separator or the end of the text.
pub proof fn lemma_first_seg_len(s: Seq<char>)
    ensures
        0 <= first_seg_len(s) <= s.len(),
        forall|i: int| 0 <= i < first_seg_len(s) ==> s[i] != '.',
        first_seg_len(s) < s.len() ==> s[first_seg_len(s)] == '.',
    decreases s.len(),
{
    if s.len() == 0 {
    } else if s[0] == '.' {
    } else {
        lemma_first_seg_len(s.skip(1));
        assert forall|i: int| 0 <= i < first_seg_len(s) implies s[i] != '.' by {
            if i > 0 {
                assert(s.skip(1)[i - 1] == s[i]);
            }
        }
        if first_seg_len(s) < s.len() {
            assert(s.skip(1)[first_seg_len(s) - 1] == s[first_seg_len(s)]);
        }
    }
}

/// If the first `i` characters are not separators, the first segment reaches
/// at least to `i`.
pub proof fn lemma_fsl_at_least(s: Seq<char>, i: int)
    requires
        0 <= i <= s.len(),
        forall|j: int| 0 <= j < i ==> s[j] != '.',
    ensures
        first_seg_len(s) >= i,
    decreases i,
{
    if i > 0 {
        assert(s[0] != '.');
        assert(first_seg_len(s) == 1 + first_seg_len(s.skip(1)));
        assert forall|j: int| 0 <= j < i - 1 implies s.skip(1)[j] != '.' by {
            assert(s.skip(1)[j] == s[j + 1]);
        }
        lemma_fsl_at_least(s.skip(1), i - 1);
    } else {
        lemma_first_seg_len(s);
    }
}

/// Is `s` the text of one sibling index: nonempty, digits only, and a value
/// that is positive and fits the index type?
pub open spec fn valid_seg(s: Seq<char>) -> bool {
    s.len() >= 1 && all_digits(s) && 1 <= seg_val(s) <= u32::MAX
}

/// The identifier read from nonempty text: the values of the dot-separated
/// segments, or nothing if any segment is invalid.
pub open spec fn parse_segs(s: Seq<char>) -> Option<Seq<u32>>
    decreases s.len(),
{
    let k = first_seg_len(s);
    let seg = s.take(k);
    if !valid_seg(seg) {
        None
    } else if k == s.len() {
        Some(seq![seg_val(seg) as u32])
    } else {
        proof {
            lemma_first_seg_len(s);
        }
        match parse_segs(s.skip(k + 1)) {
            Some(v) => Some(seq![seg_val(seg) as u32] + v),
            None => None,
        }
    }
}

/// The identifier read from text: empty text denotes the root.
pub open spec fn parse_id(s: Seq<char>) -> Option<Seq<u32>> {
    if s.len() == 0 {
        Some(Seq::<u32>::empty())
    } else {
        parse_segs(s)
    }
}

/// The text of an identifier: dot-joined decimal indices; the root is empty.
pub open spec fn id_text(v: Seq<u32>) -> Seq<char>
    decreases v.len(),
{
    if v.len() == 0 {
        Seq::<char>::empty()
    } else if v.len() == 1 {
        dec_rep(v[0] as nat)
    } else {
        dec_rep(v[0] as nat) + seq!['.'] + id_text(v.skip(1))
    }
}

/// Unrolls `id_text` at the back: appending an index appends its rendering.
pub proof fn lemma_id_text_push(v: Seq<u32>, x: u32)
    ensures
        v.len() == 0 ==> id_text(v.push(x)) == dec_rep(x as nat),
        v.len() >= 1 ==> id_text(v.push(x)) == id_text(v) + seq!['.'] + dec_rep(x as nat),
    decreases v.len(),
{
    if v.len() == 0 {
        assert(v.push(x).len() == 1);
        assert(v.push(x)[0] == x);
    } else if v.len() == 1 {
        assert(v.push(x).skip(1) =~= seq![x]);
        assert(id_text(seq![x]) == dec_rep(x as nat));
        assert(v.push(x)[0] == v[0]);
    } else {
        assert(v.push(x).skip(1) =~= v.skip(1).push(x));
        lemma_id_text_push(v.skip(1), x);
        assert(v.push(x)[0] == v[0]);
        assert(dec_rep(v[0] as nat) + seq!['.'] + (id_text(v.skip(1)) + seq!['.'] + dec_rep(
            x as nat,
        )) =~= (dec_rep(v[0] as nat) + seq!['.'] + id_text(v.skip(1))) + seq!['.'] + dec_rep(
            x as nat,
        ));
    }
}

/// The text of a nonempty identifier is nonempty.
pub proof fn lemma_id_text_nonempty(v: Seq<u32>)
    requires
        v.len() >= 1,
    ensures
        id_text(v).len() >= 1,
{
    lemma_dec_rep_val(v[0] as nat);
}

/// Reading back the text of any identifier with positive indices gives the
/// identifier itself: parsing inverts printing.
pub proof fn lemma_parse_round_trip(v: Seq<u32>)
    requires
        forall|i: int| 0 <= i < v.len() ==> (#[trigger] v[i]) >= 1,
    ensures
        parse_id(id_text(v)) == Some(v),
    decreases v.len(),
{
    if v.len() == 0 {
        assert(Seq::<u32>::empty() =~= v);
    } else {
        let d = dec_rep(v[0] as nat);
        lemma_dec_rep_val(v[0] as nat);
        assert(forall|i: int| 0 <= i < d.len() ==> is_digit(#[trigger] d[i]) && d[i] != '.');
        let s = id_text(v);
        if v.len() == 1 {
            assert(s == d);
            lemma_fsl_at_least(s, s.len() as int);
            lemma_first_seg_len(s);
            let k = first_seg_len(s);
            assert(k == s.len());
            assert(s.take(k) =~= s);
            assert(valid_seg(s));
            assert(seq![seg_val(s) as u32] =~= v);
        } else {
            let rest = id_text(v.skip(1));
            assert(s == d + seq!['.'] + rest);
            assert forall|j: int| 0 <= j < d.len() implies s[j] != '.' by {
                assert(s[j] == d[j]);
            }
            lemma_fsl_at_least(s, d.len() as int);
            lemma_first_seg_len(s);
            let k = first_seg_len(s);
            assert(s[d.len() as int] == '.');
            assert(k == d.len());
            assert(s.take(k) =~= d);
            assert(valid_seg(d));
            assert(s.skip(k + 1) =~= rest);
            lemma_parse_round_trip(v.skip(1));
            assert(v.skip(1).len() >= 1);
            lemma_id_text_nonempty(v.skip(1));
            assert(parse_segs(rest) == Some(v.skip(1)));
            assert(seq![seg_val(d) as u32] + v.skip(1) =~= v);
        }
    }
}

/// An immutable hierarchical path: one positive index per tree level.
#[derive(Debug, Hash)]
pub struct TaskId {
    id: Vec<u32>,
}

impl View for TaskId {
    type V = Seq<u32>;

    closed spec fn view(&self) -> Seq<u32> {
        self.id@
    }
}

impl Clone for TaskId {
    fn clone(&self) -> (r: Self)
        ensures
            r@ == self@,
    {
        let mut vec: Vec<u32> = Vec::new();
        let mut i: usize = 0;
        while i < self.id.len()
            invariant
                i <= self.id.len(),
                vec@ == self.id@.take(i as int),
            decreases self.id.len() - i,
        {
            vec.push(self.id[i]);
            proof {
                assert(vec@ =~= self.id@.take(i + 1));
            }
            i = i + 1;
        }
        proof {
            assert(vec@ =~= self.id@);
        }
        TaskId { id: vec }
    }
}

impl PartialEq for TaskId {
    fn eq(&self, other: &Self) -> (r: bool) {
        let r = self.id == other.id;
        proof {
            if r {
                assert(self.id@ =~= other.id@);
            } else {
                if self.id@ == other.id@ {
                    assert(forall|i: int|
                        0 <= i < self.id@.len() ==> self.id@[i] == other.id@[i]);
                    assert(false);
                }
            }
        }
        r
    }
}

impl Eq for TaskId {

}

impl vstd::std_specs::cmp::PartialEqSpecImpl for TaskId {
    open spec fn obeys_eq_spec() -> bool {
        true
    }

    open spec fn eq_spec(&self, other: &Self) -> bool {
        self@ == other@
    }
}

impl TaskId {
    /// Wraps a vector of sibling indices as an identifier.
    pub fn new(id: Vec<u32>) -> (r: Self)
        ensures
            r@ == id@,
    {
        Self { id }
    }

    /// The indices as a vector, outermost level first.
    pub fn as_vec(&self) -> (r: &Vec<u32>)
        ensures
            r@ == self@,
    {
        &self.id
    }

    /// The number of levels; the root has zero.
    pub fn len(&self) -> (r: usize)
        ensures
            r == self@.len(),
    {
        self.id.len()
    }

    /// The index among the siblings: the last element.
    pub fn child_idx(&self) -> (r: Result<u32, Error>)
        ensures
            match r {
                Ok(i) => self@.len() >= 1 && i == self@.last(),
                Err(e) => self@.len() == 0 && e@ == ErrorView::NoChildIndex(self@),
            },
    {
        if self.id.len() == 0 {
            Err(Error::NoChildIndex(self.clone()))
        } else {
            Ok(self.id[self.id.len() - 1])
        }
    }

    /// The identifier with the last index dropped.
    pub fn parent(&self) -> (r: Result<TaskId, Error>)
        ensures
            match r {
                Ok(p) => self@.len() >= 1 && p@ == self@.drop_last(),
                Err(e) => self@.len() == 0 && e@ == ErrorView::NoParent(self@),
            },
    {
        let vec_len = self.id.len();
        if vec_len < 1 {
            return Err(Error::NoParent(self.clone()));
        }
        let mut parent_vec: Vec<u32> = Vec::new();
        let mut i: usize = 0;
        while i < vec_len - 1
            invariant
                vec_len == self.id.len(),
                vec_len >= 1,
                i <= vec_len - 1,
                parent_vec@ == self.id@.take(i as int),
            decreases vec_len - 1 - i,
        {
            parent_vec.push(self.id[i]);
            proof {
                assert(parent_vec@ =~= self.id@.take(i + 1));
            }
            i = i + 1;
        }
        proof {
            assert(parent_vec@ =~= self@.drop_last());
        }
        Ok(TaskId { id: parent_vec })
    }

    /// The sibling one index before this one, by pure arithmetic.
    pub fn prev_sibling(&self) -> (r: Result<TaskId, Error>)
        ensures
            match r {
                Ok(s) => self@.len() >= 1 && self@.last() >= 2 && s@ == self@.drop_last().push(
                    (self@.last() - 1) as u32,
                ),
                Err(e) => (self@.len() == 0 && e@ == ErrorView::NoParent(self@)) || (self@.len()
                    >= 1 && self@.last() <= 1 && e@ == ErrorView::BadTaskIdNum),
            },
    {
        let parent_id = self.parent()?;
        let child_idx = self.child_idx()?;
        if child_idx == 0 {
            return Err(Error::BadTaskIdNum);
        }
        parent_id.new_child_id(child_idx - 1)
    }

    /// The sibling one index after this one, by pure arithmetic.
    pub fn next_sibling(&self) -> (r: Result<TaskId, Error>)
        ensures
            match r {
                Ok(s) => self@.len() >= 1 && self@.last() < u32::MAX && s@ == self@.drop_last()
                    .push((self@.last() + 1) as u32),
                Err(e) => (self@.len() == 0 && e@ == ErrorView::NoParent(self@)) || (self@.len()
                    >= 1 && self@.last() == u32::MAX && e@ == ErrorView::BadTaskIdNum),
            },
    {
        let parent_id = self.parent()?;
        let child_idx = self.child_idx()?;
        if child_idx == u32::MAX {
            return Err(Error::BadTaskIdNum);
        }
        parent_id.new_child_id(child_idx + 1)
    }

    /// The identifiers of the first `num_childs` children, in index order.
    pub fn child_ids(&self, num_childs: u32) -> (r: Vec<TaskId>)
        ensures
            r@.len() == num_childs,
            forall|i: int|
                0 <= i < num_childs ==> (#[trigger] r@[i])@ == self@.push((i + 1) as u32),
    {
        let mut r: Vec<TaskId> = Vec::new();
        let mut child_index: u32 = 0;
        while child_index < num_childs
            invariant
                child_index <= num_childs,
                r@.len() == child_index,
                forall|i: int|
                    0 <= i < child_index ==> (#[trigger] r@[i])@ == self@.push((i + 1) as u32),
            decreases num_childs - child_index,
        {
            let mut vec = self.clone().id;
            vec.push(child_index + 1);
            r.push(TaskId { id: vec });
            child_index = child_index + 1;
        }
        r
    }

    /// Every prefix of this identifier, from the root down to itself.
    pub fn path(&self) -> (r: Vec<TaskId>)
        ensures
            r@.len() == self@.len() + 1,
            forall|i: int| 0 <= i <= self@.len() ==> (#[trigger] r@[i])@ == self@.take(i),
    {
        let mut r: Vec<TaskId> = Vec::new();
        let mut prefix: Vec<u32> = Vec::new();
        r.push(TaskId { id: prefix });
        let mut i: usize = 0;
        proof {
            assert(r@[0]@ =~= self@.take(0));
        }
        while i < self.id.len()
            invariant
                i <= self.id.len(),
                r@.len() == i + 1,
                forall|j: int| 0 <= j <= i ==> (#[trigger] r@[j])@ == self@.take(j),
            decreases self.id.len() - i,
        {
            let mut prefix: Vec<u32> = Vec::new();
            let mut j: usize = 0;
            while j < i + 1
                invariant
                    i < self.id.len(),
                    j <= i + 1,
                    prefix@ == self.id@.take(j as int),
                decreases i + 1 - j,
            {
                prefix.push(self.id[j]);
                proof {
                    assert(prefix@ =~= self.id@.take(j + 1));
                }
                j = j + 1;
            }
            r.push(TaskId { id: prefix });
            i = i + 1;
        }
        r
    }

    /// Appends a child index; the index must be positive.
    pub fn new_child_id(&self, child_num: u32) -> (r: Result<TaskId, Error>)
        ensures
            match r {
                Ok(t) => child_num >= 1 && t@ == self@.push(child_num),
                Err(e) => child_num == 0 && e@ == ErrorView::BadTaskIdNum,
            },
    {
        if child_num == 0 {
            return Err(Error::BadTaskIdNum);
        }
        let mut id_vec = self.clone().id;
        id_vec.push(child_num);
        Ok(TaskId { id: id_vec })
    }

    /// The dot-joined decimal text of this identifier; the root is empty.
    pub fn to_text(&self) -> (r: String)
        ensures
            r@ == id_text(self@),
    {
        let mut s = String::new();
        let mut i: usize = 0;
        proof {
            assert(s@ =~= id_text(self@.take(0)));
        }
        while i < self.id.len()
            invariant
                i <= self.id.len(),
                s@ == id_text(self@.take(i as int)),
            decreases self.id.len() - i,
        {
            if i > 0 {
                proof {
                    reveal_strlit(".");
                }
                s.append(".");
                proof {
                    assert(s@ =~= id_text(self@.take(i as int)) + seq!['.']);
                }
            }
            push_u64(&mut s, self.id[i as usize] as u64);
            proof {
                lemma_id_text_push(self@.take(i as int), self@[i as int]);
                assert(self@.take(i + 1) =~= self@.take(i as int).push(self@[i as int]));
                assert(s@ =~= id_text(self@.take(i + 1)));
            }
            i = i + 1;
        }
        proof {
            assert(self@.take(self.id.len() as int) =~= self@);
        }
        s
    }

    /// Reads an identifier from text: dot-separated positive decimal indices,
    /// with the empty text denoting the root. Any empty, non-numeric, zero or
    /// oversized segment is rejected.
    pub fn parse(id: &str) -> (r: Result<Self, Error>)
        ensures
            match r {
                Ok(t) => parse_id(id@) == Some(t@),
                Err(e) => parse_id(id@) is None && e@ == ErrorView::BadTaskIdString(id@),
            },
    {
        let n = id.unicode_len();
        if n == 0 {
            let root = TaskId::get_root_id();
            proof {
                assert(root@ =~= Seq::<u32>::empty());
            }
            return Ok(root);
        }
        let mut vec: Vec<u32> = Vec::new();
        let mut pos: usize = 0;
        proof {
            assert(id@.skip(0) =~= id@);
            if parse_segs(id@) is Some {
                assert(vec@ + parse_segs(id@)->Some_0 =~= parse_segs(id@)->Some_0);
            }
        }
        loop
            invariant
                n == id@.len(),
                0 < n,
                pos <= n,
                parse_segs(id@.skip(pos as int)) is Some ==> parse_id(id@) == Some(
                    vec@ + parse_segs(id@.skip(pos as int))->Some_0,
                ),
                parse_segs(id@.skip(pos as int)) is None ==> parse_id(id@) is None,
            decreases n - pos,
        {
            let ghost tail = id@.skip(pos as int);
            let mut k: usize = pos;
            let mut val: u64 = 0;
            loop
                invariant
                    n == id@.len(),
                    pos <= k <= n,
                    tail == id@.skip(pos as int),
                    forall|j: int|
                        pos <= j < k ==> is_digit(#[trigger] id@[j]) && id@[j] != '.',
                    val == seg_val(id@.subrange(pos as int, k as int)),
                    val <= u32::MAX,
                    parse_segs(id@.skip(pos as int)) is Some ==> parse_id(id@) == Some(
                        vec@ + parse_segs(id@.skip(pos as int))->Some_0,
                    ),
                    parse_segs(id@.skip(pos as int)) is None ==> parse_id(id@) is None,
                ensures
                    n == id@.len(),
                    pos <= k <= n,
                    tail == id@.skip(pos as int),
                    forall|j: int|
                        pos <= j < k ==> is_digit(#[trigger] id@[j]) && id@[j] != '.',
                    val == seg_val(id@.subrange(pos as int, k as int)),
                    val <= u32::MAX,
                    k == n || id@[k as int] == '.',
                decreases n - k,
            {
                if k == n {
                    break ;
                }
                let c = id.get_char(k);
                if c == '.' {
                    break ;
                }
                let code = c as u32;
                if code < 48 || code > 57 {
                    // a character that is neither a separator nor a digit:
                    // the segment around it can never be valid
                    proof {
                        let fsl = first_seg_len(tail);
                        assert(fsl >= k - pos + 1) by {
                            assert forall|j: int| 0 <= j < k - pos + 1 implies tail[j] != '.' by {
                                assert(tail[j] == id@[pos + j]);
                            }
                            lemma_fsl_at_least(tail, k - pos + 1);
                        }
                        lemma_first_seg_len(tail);
                        let seg = tail.take(fsl);
                        assert(seg[k - pos] == id@[k as int]);
                        assert(!is_digit(seg[k - pos]));
                        assert(!valid_seg(seg));
                        assert(parse_segs(tail) is None);
                    }
                    return Err(Error::BadTaskIdString(id.to_owned()));
                }
                let d = code - 48;
                val = val * 10 + d as u64;
                proof {
                    let pre = id@.subrange(pos as int, k as int);
                    let cur = id@.subrange(pos as int, k + 1);
                    assert(cur.drop_last() =~= pre);
                    assert(cur.last() == id@[k as int]);
                }
                if val > u32::MAX as u64 {
                    // the segment read so far is already too large, and more
                    // digits can only grow it
                    proof {
                        let fsl = first_seg_len(tail);
                        assert(fsl >= k - pos + 1) by {
                            assert forall|j: int| 0 <= j < k - pos + 1 implies tail[j] != '.' by {
                                assert(tail[j] == id@[pos + j]);
                            }
                            lemma_fsl_at_least(tail, k - pos + 1);
                        }
                        lemma_first_seg_len(tail);
                        let seg = tail.take(fsl);
                        if valid_seg(seg) {
                            assert(seg.take(k + 1 - pos) =~= id@.subrange(pos as int, k + 1)) by {
                                assert forall|j: int|
                                    0 <= j < k + 1 - pos implies seg[j] == id@[pos + j] by {
                                    assert(seg[j] == tail[j]);
                                }
                            }
                            lemma_seg_val_prefix(seg, k + 1 - pos);
                            assert(false);
                        }
                        assert(parse_segs(tail) is None);
                    }
                    return Err(Error::BadTaskIdString(id.to_owned()));
                }
                k = k + 1;
            }
            // the current segment is id[pos..k]
            proof {
                let fsl = first_seg_len(tail);
                assert forall|j: int| 0 <= j < k - pos implies tail[j] != '.' by {
                    assert(tail[j] == id@[pos + j]);
                }
                lemma_fsl_at_least(tail, k - pos);
                lemma_first_seg_len(tail);
                if (k as int) < n as int {
                    assert(tail[k - pos] == id@[k as int]);
                    assert(fsl == k - pos);
                } else {
                    assert(fsl == k - pos);
                }
                assert(tail.take(fsl) =~= id@.subrange(pos as int, k as int));
            }
            if k == pos || val == 0 {
                // an empty segment, or the value zero: not a positive index
                proof {
                    let seg = tail.take(first_seg_len(tail));
                    assert(!valid_seg(seg));
                    assert(parse_segs(tail) is None);
                }
                return Err(Error::BadTaskIdString(id.to_owned()));
            }
            proof {
                let seg = tail.take(first_seg_len(tail));
                assert forall|j: int| 0 <= j < seg.len() implies is_digit(#[trigger] seg[j]) by {
                    assert(seg[j] == id@[pos + j]);
                }
                assert(valid_seg(seg));
            }
            let ghost vec_old = vec@;
            vec.push(val as u32);
            if k == n {
                proof {
                    let seg = tail.take(first_seg_len(tail));
                    assert(first_seg_len(tail) == tail.len());
                    assert(parse_segs(tail) == Some(seq![seg_val(seg) as u32]));
                    assert(vec_old + seq![val as u32] =~= vec@);
                }
                return Ok(TaskId { id: vec });
            }
            proof {
                let seg = tail.take(first_seg_len(tail));
                let fsl = first_seg_len(tail);
                assert(tail.skip(fsl + 1) =~= id@.skip(k + 1));
                match parse_segs(id@.skip(k + 1)) {
                    Some(rest) => {
                        assert(parse_segs(tail) == Some(seq![seg_val(seg) as u32] + rest));
                        assert(vec_old + (seq![seg_val(seg) as u32] + rest) =~= vec@ + rest);
                    },
                    None => {
                        assert(parse_segs(tail) is None);
                    },
                }
            }
            pos = k + 1;
        }
    }

    /// Does `p` name this identifier or one of its ancestors?
    pub fn starts_with(&self, p: &TaskId) -> (r: bool)
        ensures
            r == crate::model::is_id_prefix(p@, self@),
    {
        if p.id.len() > self.id.len() {
            return false;
        }
        let mut i: usize = 0;
        while i < p.id.len()
            invariant
                p@.len() <= self@.len(),
                i <= p@.len(),
                forall|j: int| 0 <= j < i ==> self@[j] == p@[j],
            decreases p@.len() - i,
        {
            if self.id[i] != p.id[i] {
                proof {
                    if crate::model::is_id_prefix(p@, self@) {
                        assert(self@.take(p@.len() as int)[i as int] == self@[i as int]);
                    }
                }
                return false;
            }
            i = i + 1;
        }
        proof {
            assert(self@.take(p@.len() as int) =~= p@);
        }
        true
    }

    /// This identifier with the index at `layer` one lower.
    pub(crate) fn with_dec_index(&self, layer: usize) -> (r: TaskId)
        requires
            layer < self@.len(),
            self@[layer as int] >= 1,
        ensures
            r@ == crate::model::dec_at(self@, layer as int),
    {
        let mut v = self.clone().id;
        let x = v[layer];
        v.set(layer, x - 1);
        proof {
            assert(v@ =~= crate::model::dec_at(self@, layer as int));
        }
        TaskId { id: v }
    }

    /// The root identifier: the empty sequence.
    pub fn get_root_id() -> (r: TaskId)
        ensures
            r@ == Seq::<u32>::empty(),
    {
        let vec: Vec<u32> = Vec::new();
        proof {
            assert(vec@ =~= Seq::<u32>::empty());
        }
        TaskId { id: vec }
    }
}

} // verus!
