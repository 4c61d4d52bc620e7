//! Kernel parameters: `key=value` words from the boot command line, looked up by key.
use vstd::prelude::*;

verus! {

/// Byte strings in lexicographic order: `a` sorts before `b`.
pub open spec fn lex_lt(a: Seq<u8>, b: Seq<u8>) -> bool
    decreases a.len(),
{
    if a.len() == 0 {
        b.len() > 0
    } else if b.len() == 0 {
        false
    } else if a[0] != b[0] {
        a[0] < b[0]
    } else {
        lex_lt(a.drop_first(), b.drop_first())
    }
}

/// Two different byte strings are ordered one way or the other, and never both ways.
pub proof fn lemma_lex_total(a: Seq<u8>, b: Seq<u8>)
    ensures
        a != b ==> lex_lt(a, b) || lex_lt(b, a),
        !(lex_lt(a, b) && lex_lt(b, a)),
        !lex_lt(a, a),
    decreases a.len(),
{
    if a.len() > 0 && b.len() > 0 && a[0] == b[0] {
        lemma_lex_total(a.drop_first(), b.drop_first());
        if a != b {
            assert(a =~= seq![a[0]] + a.drop_first());
            assert(b =~= seq![b[0]] + b.drop_first());
        }
    }
    if a.len() > 0 {
        lemma_lex_total(a.drop_first(), a.drop_first());
    }
    if a.len() == 0 && b.len() == 0 {
        assert(a =~= b);
    }
}

/// Lexicographic order is transitive.
pub proof fn lemma_lex_trans(a: Seq<u8>, b: Seq<u8>, c: Seq<u8>)
    requires
        lex_lt(a, b),
        lex_lt(b, c),
    ensures
        lex_lt(a, c),
    decreases a.len(),
{
    if a.len() > 0 && b.len() > 0 && c.len() > 0 && a[0] == b[0] && b[0] == c[0] {
        lemma_lex_trans(a.drop_first(), b.drop_first(), c.drop_first());
    }
}

/// Keys in strictly increasing order.
pub open spec fn keys_sorted(e: Seq<(Vec<u8>, Vec<u8>)>) -> bool {
    forall|i: int, j: int| 0 <= i < j < e.len() ==> lex_lt(#[trigger] e[i].0@, #[trigger] e[j].0@)
}

/// Compare two byte strings: negative, zero or positive as `a` sorts before, equal to or after `b`.
fn compare_bytes(a: &[u8], b: &[u8]) -> (r: i8)
    ensures
        r < 0 <==> lex_lt(a@, b@),
        r == 0 <==> a@ == b@,
        r > 0 <==> lex_lt(b@, a@),
{
    proof {
        lemma_lex_total(a@, b@);
    }
    let mut i: usize = 0;
    assert(a@.skip(0) =~= a@ && b@.skip(0) =~= b@);
    while i < a.len() && i < b.len() && a[i] == b[i]
        invariant
            i <= a@.len(),
            i <= b@.len(),
            a@.take(i as int) == b@.take(i as int),
            lex_lt(a@, b@) == lex_lt(a@.skip(i as int), b@.skip(i as int)),
            lex_lt(b@, a@) == lex_lt(b@.skip(i as int), a@.skip(i as int)),
        decreases a@.len() - i,
    {
        proof {
            assert(a@.skip(i as int).drop_first() =~= a@.skip(i + 1));
            assert(b@.skip(i as int).drop_first() =~= b@.skip(i + 1));
            assert(a@.take(i + 1) =~= a@.take(i as int).push(a@[i as int]));
            assert(b@.take(i + 1) =~= b@.take(i as int).push(b@[i as int]));
        }
        i = i + 1;
    }
    if i < a.len() && i < b.len() {
        proof {
            assert(a@[i as int] != b@[i as int]);
        }
        if a[i] < b[i] {
            -1
        } else {
            1
        }
    } else if i < a.len() {
        proof {
            assert(b@ =~= b@.take(i as int));
            assert(a@.len() != b@.len());
        }
        1
    } else if i < b.len() {
        proof {
            assert(a@ =~= a@.take(i as int));
            assert(a@.len() != b@.len());
        }
        -1
    } else {
        proof {
            assert(a@ =~= a@.take(i as int));
            assert(b@ =~= b@.take(i as int));
        }
        0
    }
}

/// Bytes that separate kernel parameters: NUL and ASCII white space.
pub open spec fn is_sep(b: u8) -> bool {
    b == 0 || b == 0x20 || b == 0x09 || b == 0x0a || b == 0x0c || b == 0x0d
}

/// Reading `s` word by word: the words that separators have ended, and the word still being
/// read; a word is a maximal run of bytes that are not separators.
pub open spec fn scan_words(s: Seq<u8>) -> (Seq<Seq<u8>>, Seq<u8>)
    decreases s.len(),
{
    if s.len() == 0 {
        (Seq::empty(), Seq::empty())
    } else {
        let (w, c) = scan_words(s.drop_last());
        if is_sep(s.last()) {
            if c.len() > 0 {
                (w.push(c), Seq::empty())
            } else {
                (w, Seq::empty())
            }
        } else {
            (w, c.push(s.last()))
        }
    }
}

/// The words of `s`.
pub open spec fn kparam_words(s: Seq<u8>) -> Seq<Seq<u8>> {
    let (w, c) = scan_words(s);
    if c.len() > 0 {
        w.push(c)
    } else {
        w
    }
}

/// Every byte of `w` is ASCII.
pub open spec fn is_ascii(w: Seq<u8>) -> bool {
    forall|i: int| 0 <= i < w.len() ==> w[i] < 0x80
}

/// Index of the first `=` of `w`, if it has one.
pub open spec fn first_eq(w: Seq<u8>) -> Option<int> {
    if exists|i: int| 0 <= i < w.len() && w[i] == 0x3d {
        Some(choose|i: int| 0 <= i < w.len() && w[i] == 0x3d && forall|j: int| 0 <= j < i ==> w[j] != 0x3d)
    } else {
        None
    }
}

/// The key of a word: what comes before its first `=`, or all of it.
pub open spec fn word_key(w: Seq<u8>) -> Seq<u8> {
    match first_eq(w) {
        Some(i) => w.take(i),
        None => w,
    }
}

/// The value of a word: what comes after its first `=`, or nothing.
pub open spec fn word_value(w: Seq<u8>) -> Seq<u8> {
    match first_eq(w) {
        Some(i) => w.skip(i + 1),
        None => Seq::empty(),
    }
}

/// The parameters `m` after adding the ASCII words of `words` in order; a key that is there
/// already keeps its value.
pub open spec fn add_words(m: Map<Seq<u8>, Seq<u8>>, words: Seq<Seq<u8>>) -> Map<Seq<u8>, Seq<u8>>
    decreases words.len(),
{
    if words.len() == 0 {
        m
    } else {
        let m1 = add_words(m, words.drop_last());
        let w = words.last();
        if !is_ascii(w) || m1.contains_key(word_key(w)) {
            m1
        } else {
            m1.insert(word_key(w), word_value(w))
        }
    }
}

proof fn lemma_add_one(m: Map<Seq<u8>, Seq<u8>>, w: Seq<u8>)
    ensures
        add_words(m, seq![w]) == if !is_ascii(w) || m.contains_key(word_key(w)) {
            m
        } else {
            m.insert(word_key(w), word_value(w))
        },
{
    assert(seq![w].drop_last() =~= Seq::<Seq<u8>>::empty());
    assert(add_words(m, Seq::<Seq<u8>>::empty()) == m);
}

proof fn lemma_add_push(m: Map<Seq<u8>, Seq<u8>>, ws: Seq<Seq<u8>>, w: Seq<u8>)
    ensures
        add_words(m, ws.push(w)) == add_words(add_words(m, ws), seq![w]),
{
    assert(ws.push(w).drop_last() =~= ws);
    lemma_add_one(add_words(m, ws), w);
}

/// A word with an `=` (0x3d) is its key, that `=` and its value, and the key holds no `=`; a word
/// without one is all key, with an empty value.
pub proof fn lemma_word_key_value(w: Seq<u8>)
    ensures
        !word_key(w).contains(0x3du8),
        w.contains(0x3du8) ==> word_key(w) + seq![0x3du8] + word_value(w) == w,
        !w.contains(0x3du8) ==> word_key(w) == w && word_value(w) == Seq::<u8>::empty(),
{
    if w.contains(0x3du8) {
        let j = choose|j: int| 0 <= j < w.len() && w[j] == 0x3du8;
        let m = lemma_min_eq(w, j + 1);
        let c = choose|i: int| 0 <= i < w.len() && w[i] == 0x3d && forall|k: int| 0 <= k < i ==> w[k] != 0x3d;
        if c < m {
        } else if c > m {
            assert(w[m] == 0x3d);
        }
        assert(first_eq(w) == Some(m));
        assert(w.take(m) + seq![0x3du8] + w.skip(m + 1) =~= w);
        if w.take(m).contains(0x3du8) {
            let k = choose|k: int| 0 <= k < w.take(m).len() && w.take(m)[k] == 0x3du8;
            assert(w[k] == 0x3du8);
        }
    } else {
        assert(!(exists|i: int| 0 <= i < w.len() && w[i] == 0x3d));
        assert(first_eq(w) is None);
    }
}

/// The first `=` among the first `n` bytes of `w`, where there is one.
proof fn lemma_min_eq(w: Seq<u8>, n: int) -> (m: int)
    requires
        0 < n <= w.len(),
        w[n - 1] == 0x3d,
    ensures
        0 <= m < n,
        w[m] == 0x3d,
        forall|k: int| 0 <= k < m ==> w[k] != 0x3d,
    decreases n,
{
    if exists|i: int| 0 <= i < n - 1 && w[i] == 0x3d {
        let i = choose|i: int| 0 <= i < n - 1 && w[i] == 0x3d;
        lemma_min_eq(w, i + 1)
    } else {
        n - 1
    }
}

/// A byte that ends a word: NUL, space, tab, line feed, form feed or carriage return.
pub open spec fn ends_word(b: u8) -> bool {
    b == 0 || b == 0x20 || b == 0x09 || b == 0x0a || b == 0x0c || b == 0x0d
}

proof fn lemma_scan_words_clean(s: Seq<u8>)
    ensures
        forall|k: int| 0 <= k < scan_words(s).0.len() ==> (#[trigger] scan_words(s).0[k]).len() > 0
            && forall|j: int| 0 <= j < scan_words(s).0[k].len() ==> !ends_word(scan_words(s).0[k][j]),
        forall|j: int| 0 <= j < scan_words(s).1.len() ==> !ends_word(scan_words(s).1[j]),
    decreases s.len(),
{
    if s.len() > 0 {
        lemma_scan_words_clean(s.drop_last());
        let (w, c) = scan_words(s.drop_last());
        if is_sep(s.last()) {
            if c.len() > 0 {
                assert forall|k: int| 0 <= k < w.push(c).len() implies (#[trigger] w.push(c)[k]).len() > 0
                    && forall|j: int| 0 <= j < w.push(c)[k].len() ==> !ends_word(w.push(c)[k][j]) by {
                    if k < w.len() {
                        assert(w.push(c)[k] == w[k]);
                    }
                }
            }
        } else {
            assert forall|j: int| 0 <= j < c.push(s.last()).len() implies !ends_word(c.push(s.last())[j]) by {
                if j < c.len() {
                    assert(c.push(s.last())[j] == c[j]);
                }
            }
        }
    }
}

/// The words of a parameter string are not empty and hold none of the bytes that end words.
pub proof fn lemma_kparam_words_clean(s: Seq<u8>)
    ensures
        forall|k: int| 0 <= k < kparam_words(s).len() ==> (#[trigger] kparam_words(s)[k]).len() > 0
            && forall|j: int| 0 <= j < kparam_words(s)[k].len() ==> !ends_word(kparam_words(s)[k][j]),
{
    lemma_scan_words_clean(s);
    let (w, c) = scan_words(s);
    if c.len() > 0 {
        assert forall|k: int| 0 <= k < w.push(c).len() implies (#[trigger] w.push(c)[k]).len() > 0
            && forall|j: int| 0 <= j < w.push(c)[k].len() ==> !ends_word(w.push(c)[k][j]) by {
            if k < w.len() {
                assert(w.push(c)[k] == w[k]);
            }
        }
    }
}

/// Some word of `words` holds a byte that is not ASCII.
pub open spec fn any_nonascii(words: Seq<Seq<u8>>) -> bool {
    exists|i: int| 0 <= i < words.len() && !is_ascii(#[trigger] words[i])
}

/// Map of kernel parameters, sorted by key.
pub struct KParams {
    entries: Vec<(Vec<u8>, Vec<u8>)>,
}

impl KParams {
    #[verifier::type_invariant]
    spec fn inv(self) -> bool {
        keys_sorted(self.entries@)
    }

    /// Whether some parameter has key `k`.
    pub closed spec fn has(&self, k: Seq<u8>) -> bool {
        exists|i: int| 0 <= i < self.entries@.len() && self.entries@[i].0@ == k
    }

    /// The parameters: their values by key.
    pub closed spec fn view(&self) -> Map<Seq<u8>, Seq<u8>> {
        Map::new(
            |k: Seq<u8>| self.has(k),
            |k: Seq<u8>| self.entries@[choose|i: int| 0 <= i < self.entries@.len() && self.entries@[i].0@ == k].1@,
        )
    }

    /// No parameters.
    pub fn new() -> (r: Self)
        ensures
            r@ == Map::<Seq<u8>, Seq<u8>>::empty(),
    {
        let r = KParams { entries: Vec::new() };
        assert(r@ =~= Map::<Seq<u8>, Seq<u8>>::empty());
        r
    }

    /// Where `key` is, or where it belongs: `Ok` with its index if present, else `Err` with the
    /// number of keys that sort before it.
    fn search(&self, key: &[u8]) -> (r: Result<usize, usize>)
        ensures
            r matches Ok(i) ==> i < self.entries@.len() && self.entries@[i as int].0@ == key@,
            r matches Err(p) ==> p <= self.entries@.len()
                && (forall|i: int| 0 <= i < p ==> lex_lt(#[trigger] self.entries@[i].0@, key@))
                && (forall|i: int| p <= i < self.entries@.len() ==> lex_lt(key@, #[trigger] self.entries@[i].0@)),
    {
        proof {
            use_type_invariant(self);
        }
        let mut lo: usize = 0;
        let mut hi: usize = self.entries.len();
        while lo < hi
            invariant
                keys_sorted(self.entries@),
                lo <= hi <= self.entries@.len(),
                forall|i: int| 0 <= i < lo ==> lex_lt(#[trigger] self.entries@[i].0@, key@),
                forall|i: int| hi <= i < self.entries@.len() ==> lex_lt(key@, #[trigger] self.entries@[i].0@),
            decreases hi - lo,
        {
            let mid = lo + (hi - lo) / 2;
            let c = compare_bytes(self.entries[mid].0.as_slice(), key);
            if c == 0 {
                return Ok(mid);
            } else if c < 0 {
                proof {
                    assert forall|i: int| 0 <= i <= mid implies lex_lt(#[trigger] self.entries@[i].0@, key@) by {
                        if i < mid {
                            lemma_lex_trans(self.entries@[i].0@, self.entries@[mid as int].0@, key@);
                        }
                    }
                }
                lo = mid + 1;
            } else {
                proof {
                    assert forall|i: int| mid <= i < self.entries@.len() implies lex_lt(key@, #[trigger] self.entries@[i].0@) by {
                        if i > mid {
                            lemma_lex_trans(key@, self.entries@[mid as int].0@, self.entries@[i].0@);
                        }
                    }
                }
                hi = mid;
            }
        }
        Err(lo)
    }

    /// Add a kernel parameter; a key that is already there keeps its value and the result is
    /// `false`.
    pub fn add_kparam(&mut self, key: Vec<u8>, value: Vec<u8>) -> (r: bool)
        ensures
            r == !old(self)@.contains_key(key@),
            r ==> final(self)@ == old(self)@.insert(key@, value@),
            !r ==> final(self)@ == old(self)@,
    {
        proof {
            use_type_invariant(&*self);
        }
        match self.search(key.as_slice()) {
            Ok(i) => {
                assert(self@.contains_key(key@));
                false
            },
            Err(p) => {
                let ghost e0 = self.entries@;
                let ghost k = key@;
                let ghost v = value@;
                proof {
                    assert(!self.has(k)) by {
                        if self.has(k) {
                            let j = choose|j: int| 0 <= j < e0.len() && e0[j].0@ == k;
                            lemma_lex_total(k, k);
                        }
                    }
                }
                let mut entries: Vec<(Vec<u8>, Vec<u8>)> = Vec::new();
                std::mem::swap(&mut entries, &mut self.entries);
                entries.insert(p, (key, value));
                let ghost e1 = entries@;
                proof {
                    assert(e1 == e0.insert(p as int, e1[p as int]));
                    assert(e1[p as int].0@ == k && e1[p as int].1@ == v);
                    assert forall|i: int, j: int| 0 <= i < j < e1.len() implies lex_lt(#[trigger] e1[i].0@, #[trigger] e1[j].0@) by {
                        if j < p {
                            assert(e1[i] == e0[i] && e1[j] == e0[j]);
                        } else if j == p {
                            assert(e1[i] == e0[i]);
                        } else if i == p {
                            assert(e1[j] == e0[j - 1]);
                        } else if i < p {
                            assert(e1[i] == e0[i] && e1[j] == e0[j - 1]);
                            lemma_lex_trans(e0[i].0@, k, e0[j - 1].0@);
                        } else {
                            assert(e1[i] == e0[i - 1] && e1[j] == e0[j - 1]);
                        }
                    }
                }
                self.entries = entries;
                proof {
                    let old_map = old(self)@;
                    assert forall|q: Seq<u8>| #[trigger] self.has(q) == (old(self).has(q) || q == k) by {
                        if old(self).has(q) {
                            let j = choose|j: int| 0 <= j < e0.len() && e0[j].0@ == q;
                            if j < p {
                                assert(e1[j] == e0[j]);
                            } else {
                                assert(e1[j + 1] == e0[j]);
                            }
                        }
                        if self.has(q) && q != k {
                            let j = choose|j: int| 0 <= j < e1.len() && e1[j].0@ == q;
                            if j < p {
                                assert(e1[j] == e0[j]);
                            } else {
                                assert(j != p);
                                assert(e1[j] == e0[j - 1]);
                            }
                        }
                    }
                    assert forall|q: Seq<u8>| #[trigger] self.has(q) implies self@[q] == old_map.insert(k, v)[q] by {
                        let j = choose|j: int| 0 <= j < e1.len() && e1[j].0@ == q;
                        if q == k {
                            if j != p {
                                lemma_lex_total(e1[j].0@, e1[p as int].0@);
                            }
                        } else {
                            let j0 = choose|j: int| 0 <= j < e0.len() && e0[j].0@ == q;
                            let j1 = if j0 < p { j0 } else { j0 + 1 };
                            assert(e1[j1] == e0[j0]);
                            if j != j1 {
                                lemma_lex_total(e1[j].0@, e1[j1].0@);
                            }
                        }
                    }
                    assert(self@ =~= old_map.insert(k, v));
                }
                true
            },
        }
    }

    /// Add the parameter that word `w` gives, if it is ASCII; returns whether it is.
    fn add_word(&mut self, w: &[u8]) -> (r: bool)
        ensures
            r == is_ascii(w@),
            final(self)@ == add_words(old(self)@, seq![w@]),
    {
        let mut i: usize = 0;
        while i < w.len()
            invariant
                i <= w@.len(),
                forall|j: int| 0 <= j < i ==> w@[j] < 0x80,
            decreases w@.len() - i,
        {
            if w[i] >= 0x80 {
                proof {
                    lemma_add_one(self@, w@);
                }
                return false;
            }
            i = i + 1;
        }
        let mut e: usize = 0;
        while e < w.len() && w[e] != 0x3d
            invariant
                e <= w@.len(),
                forall|j: int| 0 <= j < e ==> w@[j] != 0x3d,
            decreases w@.len() - e,
        {
            e = e + 1;
        }
        let key: Vec<u8>;
        let value: Vec<u8>;
        if e < w.len() {
            proof {
                let c = choose|i: int| 0 <= i < w@.len() && w@[i] == 0x3d && forall|j: int| 0 <= j < i ==> w@[j] != 0x3d;
                if c < e {
                } else if c > e {
                    assert(w@[e as int] == 0x3d);
                }
                assert(first_eq(w@) == Some(e as int));
            }
            key = vstd::slice::slice_to_vec(vstd::slice::slice_subrange(w, 0, e));
            value = vstd::slice::slice_to_vec(vstd::slice::slice_subrange(w, e + 1, w.len()));
            proof {
                assert(key@ =~= w@.take(e as int));
                assert(value@ =~= w@.skip(e + 1));
            }
        } else {
            proof {
                assert(first_eq(w@) is None);
            }
            key = vstd::slice::slice_to_vec(w);
            value = Vec::new();
            proof {
                assert(value@ =~= Seq::<u8>::empty());
            }
        }
        proof {
            lemma_add_one(self@, w@);
        }
        self.add_kparam(key, value);
        true
    }

    /// Parse kernel parameters from the boot command line `raw`: its words are `key=value` or
    /// just `key`, separated by white space or NUL bytes; words that are not ASCII are skipped,
    /// and the result says whether there were any.
    pub fn parse_kparams(&mut self, raw: &[u8]) -> (nonascii: bool)
        ensures
            final(self)@ == add_words(old(self)@, kparam_words(raw@)),
            nonascii == any_nonascii(kparam_words(raw@)),
    {
        let ghost m0 = self@;
        let mut nonascii = false;
        let mut start: usize = 0;
        let mut i: usize = 0;
        while i < raw.len()
            invariant
                start <= i <= raw@.len(),
                scan_words(raw@.take(i as int)).1 == raw@.subrange(start as int, i as int),
                self@ == add_words(m0, scan_words(raw@.take(i as int)).0),
                nonascii == any_nonascii(scan_words(raw@.take(i as int)).0),
            decreases raw@.len() - i,
        {
            let ghost t0 = raw@.take(i as int);
            let ghost t1 = raw@.take(i + 1);
            proof {
                assert(t1.drop_last() =~= t0);
                assert(t1.last() == raw@[i as int]);
            }
            let b = raw[i];
            if b == 0 || b == 0x20 || b == 0x09 || b == 0x0a || b == 0x0c || b == 0x0d {
                if i > start {
                    let ghost words0 = scan_words(t0).0;
                    let w = vstd::slice::slice_subrange(raw, start, i);
                    let ascii = self.add_word(w);
                    proof {
                        assert(scan_words(t1).0 == words0.push(w@));
                        assert(words0.push(w@).drop_last() =~= words0);
                        lemma_add_push(m0, words0, w@);
                        if any_nonascii(words0) {
                            let k = choose|k: int| 0 <= k < words0.len() && !is_ascii(#[trigger] words0[k]);
                            assert(words0.push(w@)[k] == words0[k]);
                        }
                        if any_nonascii(words0.push(w@)) {
                            let k = choose|k: int| 0 <= k < words0.len() + 1 && !is_ascii(#[trigger] words0.push(w@)[k]);
                            if k < words0.len() {
                                assert(words0.push(w@)[k] == words0[k]);
                            }
                        }
                        if !ascii {
                            assert(words0.push(w@)[words0.len() as int] == w@);
                        }
                    }
                    if !ascii {
                        nonascii = true;
                    }
                }
                start = i + 1;
                proof {
                    assert(raw@.subrange(start as int, i + 1) =~= Seq::<u8>::empty());
                }
            } else {
                proof {
                    assert(raw@.subrange(start as int, i + 1) =~= raw@.subrange(start as int, i as int).push(b));
                }
            }
            i = i + 1;
        }
        proof {
            assert(raw@.take(i as int) =~= raw@);
        }
        if i > start {
            let ghost words0 = scan_words(raw@).0;
            let w = vstd::slice::slice_subrange(raw, start, i);
            let ascii = self.add_word(w);
            proof {
                assert(kparam_words(raw@) == words0.push(w@));
                assert(words0.push(w@).drop_last() =~= words0);
                lemma_add_push(m0, words0, w@);
                if any_nonascii(words0) {
                    let k = choose|k: int| 0 <= k < words0.len() && !is_ascii(#[trigger] words0[k]);
                    assert(words0.push(w@)[k] == words0[k]);
                }
                if any_nonascii(words0.push(w@)) {
                    let k = choose|k: int| 0 <= k < words0.len() + 1 && !is_ascii(#[trigger] words0.push(w@)[k]);
                    if k < words0.len() {
                        assert(words0.push(w@)[k] == words0[k]);
                    }
                }
                if !ascii {
                    assert(words0.push(w@)[words0.len() as int] == w@);
                }
            }
            if !ascii {
                nonascii = true;
            }
        }
        nonascii
    }

    /// Look up a kernel parameter.
    pub fn get_kparam(&self, key: &[u8]) -> (r: Option<&Vec<u8>>)
        ensures
            self@.contains_key(key@) ==> (r matches Some(v) && v@ == self@[key@]),
            !self@.contains_key(key@) ==> r is None,
    {
        proof {
            use_type_invariant(self);
        }
        match self.search(key) {
            Ok(i) => {
                proof {
                    let j = choose|j: int| 0 <= j < self.entries@.len() && self.entries@[j].0@ == key@;
                    if j != i {
                        lemma_lex_total(self.entries@[j].0@, self.entries@[i as int].0@);
                    }
                }
                Some(&self.entries[i].1)
            },
            Err(p) => {
                proof {
                    if self.has(key@) {
                        let j = choose|j: int| 0 <= j < self.entries@.len() && self.entries@[j].0@ == key@;
                        lemma_lex_total(key@, key@);
                    }
                }
                None
            },
        }
    }
}

} // verus!
