//! Rear-coded lists: sorted byte strings in blocks of `k`, the first of each
//! block stored whole and each other one as the number of bytes to drop
//! from the previous string (a VByte code) followed by the bytes to append,
//! every entry ending with a zero byte.

use vstd::prelude::*;
use vstd::string::StringSliceAdditionalSpecFns;
use crate::vbyte::{decode_int, encode_int, encode_int_len, lemma_vbyte_round_trip, vbyte};

verus! {

/// The length of the longest common prefix of `a` and `b`, counting from `i`.
pub open spec fn lcp_from(a: Seq<u8>, b: Seq<u8>, i: nat) -> nat
    decreases a.len() - i,
{
    if i < a.len() && i < b.len() && a[i as int] == b[i as int] {
        lcp_from(a, b, i + 1)
    } else {
        i
    }
}

/// The length of the longest common prefix of `a` and `b`.
pub open spec fn lcp(a: Seq<u8>, b: Seq<u8>) -> nat {
    lcp_from(a, b, 0)
}

pub proof fn lemma_lcp(a: Seq<u8>, b: Seq<u8>, i: nat)
    requires
        i <= a.len(),
        i <= b.len(),
        a.subrange(0, i as int) == b.subrange(0, i as int),
    ensures
        lcp_from(a, b, i) <= a.len(),
        lcp_from(a, b, i) <= b.len(),
        a.subrange(0, lcp_from(a, b, i) as int) == b.subrange(0, lcp_from(a, b, i) as int),
    decreases a.len() - i,
{
    if i < a.len() && i < b.len() && a[i as int] == b[i as int] {
        assert(a.subrange(0, (i + 1) as int) =~= a.subrange(0, i as int).push(a[i as int]));
        assert(b.subrange(0, (i + 1) as int) =~= b.subrange(0, i as int).push(b[i as int]));
        lemma_lcp(a, b, i + 1);
    }
}

/// No zero byte: the string can be stored zero-terminated.
pub open spec fn nul_free(s: Seq<u8>) -> bool {
    forall|i: int| 0 <= i < s.len() ==> s[i] != 0
}

/// `a` comes strictly before `b` in lexicographic byte order.
pub open spec fn lex_lt(a: Seq<u8>, b: Seq<u8>) -> bool
    decreases a.len(),
{
    if a.len() == 0 {
        b.len() > 0
    } else if b.len() == 0 {
        false
    } else if a[0] != b[0] {
        a[0] < b[0]
    } else {
        lex_lt(a.drop_first(), b.drop_first())
    }
}

/// The order of `a` with respect to `b`.
pub open spec fn lex_cmp(a: Seq<u8>, b: Seq<u8>) -> core::cmp::Ordering {
    if a == b {
        core::cmp::Ordering::Equal
    } else if lex_lt(a, b) {
        core::cmp::Ordering::Less
    } else {
        core::cmp::Ordering::Greater
    }
}

pub proof fn lemma_lex_asym(a: Seq<u8>, b: Seq<u8>)
    ensures
        !(lex_lt(a, b) && lex_lt(b, a)),
        !lex_lt(a, a),
    decreases a.len(),
{
    if a.len() > 0 && b.len() > 0 && a[0] == b[0] {
        lemma_lex_asym(a.drop_first(), b.drop_first());
    }
    if a.len() > 0 {
        lemma_lex_asym(a.drop_first(), a.drop_first());
    }
}

/// Every string is at most every later one.
pub open spec fn sorted(l: Seq<Seq<u8>>) -> bool {
    forall|i: int, j: int| 0 <= i < j < l.len() ==> l[i] == l[j] || lex_lt(l[i], l[j])
}

/// The entry of string `i` in a list with blocks of `k`.
pub open spec fn entry(l: Seq<Seq<u8>>, k: nat, i: int) -> Seq<u8> {
    if i % (k as int) == 0 {
        l[i] + seq![0u8]
    } else {
        let m = lcp(l[i - 1], l[i]);
        vbyte((l[i - 1].len() - m) as u64) + l[i].subrange(m as int, l[i].len() as int) + seq![0u8]
    }
}

/// The entries of the first `n` strings.
pub open spec fn encoding(l: Seq<Seq<u8>>, k: nat, n: nat) -> Seq<u8>
    decreases n,
{
    if n == 0 {
        Seq::empty()
    } else {
        encoding(l, k, (n - 1) as nat) + entry(l, k, n - 1)
    }
}

pub proof fn lemma_encoding_prefix(l: Seq<Seq<u8>>, k: nat, m: nat, n: nat)
    requires
        m < n,
    ensures
        encoding(l, k, n).len() >= encoding(l, k, m).len() + entry(l, k, m as int).len(),
        encoding(l, k, n).subrange(
            encoding(l, k, m).len() as int,
            (encoding(l, k, m).len() + entry(l, k, m as int).len()) as int,
        ) == entry(l, k, m as int),
        encoding(l, k, (m + 1) as nat).len() == encoding(l, k, m).len() + entry(l, k, m as int).len(),
    decreases n - m,
{
    if n == m + 1 {
        let e = encoding(l, k, m);
        assert(encoding(l, k, n).subrange(e.len() as int, (e.len() + entry(l, k, m as int).len()) as int) =~= entry(l, k, m as int));
    } else {
        lemma_encoding_prefix(l, k, m, (n - 1) as nat);
        let e = encoding(l, k, (n - 1) as nat);
        let a = encoding(l, k, m).len() as int;
        let b = (encoding(l, k, m).len() + entry(l, k, m as int).len()) as int;
        assert(encoding(l, k, n).subrange(a, b) =~= e.subrange(a, b));
    }
}

/// The encoding of the first `n` strings reads only those strings.
pub proof fn lemma_encoding_frame(a: Seq<Seq<u8>>, b: Seq<Seq<u8>>, k: nat, n: nat)
    requires
        k >= 1,
        n <= a.len(),
        n <= b.len(),
        a.subrange(0, n as int) == b.subrange(0, n as int),
    ensures
        encoding(a, k, n) == encoding(b, k, n),
    decreases n,
{
    if n > 0 {
        assert(a.subrange(0, n - 1) =~= a.subrange(0, n as int).subrange(0, n - 1));
        assert(b.subrange(0, n - 1) =~= b.subrange(0, n as int).subrange(0, n - 1));
        lemma_encoding_frame(a, b, k, (n - 1) as nat);
        assert(a[n - 1] == a.subrange(0, n as int)[n - 1]);
        assert(b[n - 1] == b.subrange(0, n as int)[n - 1]);
        if n >= 2 {
            assert(a[n - 2] == a.subrange(0, n as int)[n - 2]);
            assert(b[n - 2] == b.subrange(0, n as int)[n - 2]);
        }
        assert(a[n - 1] == b[n - 1]);
        if n >= 2 {
            assert(a[n - 2] == b[n - 2]);
        } else {
            assert(0int % (k as int) == 0) by (nonlinear_arith)
                requires
                    k >= 1,
            ;
        }
        assert(entry(a, k, n - 1) == entry(b, k, n - 1));
    }
}

pub proof fn lemma_encoding_len(l: Seq<Seq<u8>>, k: nat, n: nat)
    ensures
        encoding(l, k, n).len() >= n,
    decreases n,
{
    if n > 0 {
        lemma_encoding_len(l, k, (n - 1) as nat);
    }
}

/// Statistics of the encoded data.
pub struct Stats {
    /// Largest block, in bytes.
    pub max_block_bytes: usize,
    /// Sum of the sizes of the blocks, in bytes.
    pub sum_block_bytes: usize,
    /// Longest shared prefix.
    pub max_lcp: usize,
    /// Sum of the shared prefixes.
    pub sum_lcp: usize,
    /// Longest string, in bytes.
    pub max_str_len: usize,
    /// Sum of the lengths of the strings, in bytes.
    pub sum_str_len: usize,
    /// Bytes of the codes of the lengths to drop.
    pub code_bytes: usize,
    /// Bytes of the suffixes, terminators included.
    pub suffixes_bytes: usize,
    /// Bytes that the block heads spend over a rear coding of them.
    pub redundancy: isize,
}

fn sat_add(a: usize, b: usize) -> (r: usize)
    ensures
        r == if a + b <= usize::MAX { (a + b) as usize } else { usize::MAX },
{
    if a <= usize::MAX - b {
        a + b
    } else {
        usize::MAX
    }
}

fn sat_add_signed(a: isize, b: isize) -> (r: isize)
    ensures
        r == if isize::MIN <= a + b <= isize::MAX { (a + b) as isize } else if a + b < isize::MIN { isize::MIN } else { isize::MAX },
{
    if b >= 0 {
        if a <= isize::MAX - b {
            a + b
        } else {
            isize::MAX
        }
    } else if a >= isize::MIN - b {
        a + b
    } else {
        isize::MIN
    }
}

fn max_of(a: usize, b: usize) -> (r: usize)
    ensures
        r == if a >= b { a } else { b },
{
    if a >= b {
        a
    } else {
        b
    }
}

/// Relies on `Vec::shrink_to_fit`: the contents stay as they are.
#[verifier::external_body]
fn shrink_vec<T>(v: &mut Vec<T>)
    ensures
        final(v)@ == old(v)@,
{
    v.shrink_to_fit()
}

/// Number of blocks of `k` among `n` strings.
pub open spec fn num_blocks(n: nat, k: nat) -> nat {
    if k == 0 {
        0
    } else {
        ((n + k - 1) as nat / k) as nat
    }
}

/// A dictionary of byte strings, rear-coded in blocks of `k`.
pub struct RearCodedList {
    data: Vec<u8>,
    pointers: Vec<usize>,
    k: usize,
    /// Statistics of the encoded data.
    pub stats: Stats,
    len: usize,
    last_str: Vec<u8>,
    strings: Ghost<Seq<Seq<u8>>>,
}

impl View for RearCodedList {
    type V = Seq<Seq<u8>>;

    closed spec fn view(&self) -> Seq<Seq<u8>> {
        self.strings@
    }
}

impl RearCodedList {
    /// The encoded strings.
    pub closed spec fn data(&self) -> Seq<u8> {
        self.data@
    }

    /// The start of each block in the encoded strings.
    pub closed spec fn pointers(&self) -> Seq<usize> {
        self.pointers@
    }

    /// The block size.
    pub closed spec fn block_size(&self) -> nat {
        self.k as nat
    }

    pub closed spec fn wf(&self) -> bool {
        let l = self.strings@;
        let k = self.k as nat;
        &&& k >= 1
        &&& self.len == l.len()
        &&& forall|i: int| 0 <= i < l.len() ==> nul_free(#[trigger] l[i])
        &&& self.data@ == encoding(l, k, self.len as nat)
        &&& self.pointers@.len() == num_blocks(self.len as nat, k)
        &&& forall|b: int| 0 <= b < self.pointers@.len() ==> #[trigger] self.pointers@[b] == encoding(l, k, (b * k) as nat).len()
        &&& self.last_str@ == if self.len == 0 { Seq::<u8>::empty() } else { l[self.len - 1] }
    }

    /// An empty list whose blocks hold `k` strings.
    pub fn new(k: usize) -> (r: Self)
        requires
            k >= 1,
        ensures
            r.wf(),
            r@ == Seq::<Seq<u8>>::empty(),
            r.block_size() == k,
    {
        let r = RearCodedList {
            data: Vec::new(),
            pointers: Vec::new(),
            k,
            stats: Stats {
                max_block_bytes: 0,
                sum_block_bytes: 0,
                max_lcp: 0,
                sum_lcp: 0,
                max_str_len: 0,
                sum_str_len: 0,
                code_bytes: 0,
                suffixes_bytes: 0,
                redundancy: 0,
            },
            len: 0,
            last_str: Vec::new(),
            strings: Ghost(Seq::empty()),
        };
        proof {
            assert(r.data@ =~= encoding(r.strings@, k as nat, 0));
            assert(num_blocks(0, k as nat) == 0) by (nonlinear_arith)
                requires
                    k >= 1,
            ;
        }
        r
    }

    /// The number of strings.
    pub fn len(&self) -> (r: usize)
        requires
            self.wf(),
        ensures
            r == self@.len(),
    {
        self.len
    }

    /// The number of bytes of the encoded strings.
    pub fn data_len(&self) -> (r: usize)
        ensures
            r == self.data().len(),
    {
        self.data.len()
    }

    /// The number of blocks.
    pub fn num_pointers(&self) -> (r: usize)
        ensures
            r == self.pointers().len(),
    {
        self.pointers.len()
    }

    /// Appends the bytes of `s` to `data`, from position `start` on.
    fn append_from(data: &mut Vec<u8>, s: &[u8], start: usize)
        requires
            start <= s@.len(),
        ensures
            final(data)@ == old(data)@ + s@.subrange(start as int, s@.len() as int),
    {
        let mut i = start;
        while i < s.len()
            invariant
                start <= i <= s@.len(),
                data@ == old(data)@ + s@.subrange(start as int, i as int),
            decreases s@.len() - i,
        {
            data.push(s[i]);
            i += 1;
            proof {
                assert(data@ =~= old(data)@ + s@.subrange(start as int, i as int));
            }
        }
    }

    /// A valid list stores the entries of its strings back to back, and a
    /// pointer to the head of each block.
    pub proof fn lemma_layout(&self)
        requires
            self.wf(),
        ensures
            self.block_size() >= 1,
            self.data() == encoding(self@, self.block_size(), self@.len()),
            self.pointers().len() == num_blocks(self@.len(), self.block_size()),
            forall|b: int|
                0 <= b < self.pointers().len() ==> #[trigger] self.pointers()[b] == encoding(
                    self@,
                    self.block_size(),
                    (b * self.block_size()) as nat,
                ).len(),
            forall|i: int| 0 <= i < self@.len() ==> nul_free(#[trigger] self@[i]),
            forall|a: int, b: int|
                0 <= a < b < self.pointers().len() ==> #[trigger] self.pointers()[a] < #[trigger] self.pointers()[b],
    {
        let k = self.k as nat;
        assert forall|a: int, b: int|
            0 <= a < b < self.pointers().len() implies #[trigger] self.pointers()[a] < #[trigger] self.pointers()[b] by {
            lemma_block_start(b, self.len as nat, k);
            assert(a * k < b * k) by (nonlinear_arith)
                requires
                    a < b,
                    k >= 1,
            ;
            lemma_encoding_prefix(self.strings@, k, (a * k) as nat, (b * k) as nat);
        }
    }

    /// Writes the entry of `bytes` as the head of a new block.
    fn encode_head(&mut self, bytes: &[u8])
        requires
            old(self).wf(),
            nul_free(bytes@),
            old(self).len % old(self).k == 0,
        ensures
            final(self).data@ == old(self).data@ + entry(old(self).strings@.push(bytes@), old(self).k as nat, old(self).len as int),
            final(self).pointers@ == old(self).pointers@.push(old(self).data@.len() as usize),
            final(self).k == old(self).k,
            final(self).len == old(self).len,
            final(self).strings == old(self).strings,
            final(self).last_str == old(self).last_str,
    {
        let ghost l1 = self.strings@.push(bytes@);
        let ghost k = self.k as nat;
        let ghost n = self.len as nat;
        let ghost d0 = self.data@;
        let np = self.pointers.len();
        let last_ptr: usize = if np == 0 { 0 } else { self.pointers[np - 1] };
        proof {
            if np > 0 {
                lemma_block_start((np - 1) as int, n, k);
                let m: nat = ((np - 1) * k) as nat;
                lemma_encoding_prefix(self.strings@, k, m, n);
            }
        }
        let block_bytes = self.data.len() - last_ptr;
        self.stats.max_block_bytes = max_of(self.stats.max_block_bytes, block_bytes);
        self.stats.sum_block_bytes = sat_add(self.stats.sum_block_bytes, block_bytes);
        self.pointers.push(self.data.len());
        let lcp_len = longest_common_prefix(self.last_str.as_slice(), bytes);
        let rear_length = self.last_str.len() - lcp_len;
        self.stats.redundancy = sat_add_signed(self.stats.redundancy, lcp_len as isize);
        let code_len = encode_int_len(rear_length as u64);
        proof {
            crate::vbyte::lemma_vbyte_round_trip(rear_length as u64, Seq::empty());
            reveal_with_fuel(crate::vbyte::width_from, 10);
        }
        self.stats.redundancy = sat_add_signed(self.stats.redundancy, -(code_len as isize));
        Self::append_from(&mut self.data, bytes, 0);
        self.data.push(0);
        self.stats.suffixes_bytes = sat_add(self.stats.suffixes_bytes, sat_add(bytes.len(), 1));
        proof {
            assert(l1[n as int] == bytes@);
            assert(bytes@.subrange(0, bytes@.len() as int) =~= bytes@);
            assert(self.data@ =~= d0 + entry(l1, k, n as int));
        }
    }

    /// Writes the entry of `bytes` as the code of the bytes to drop from the
    /// previous string and the bytes to append.
    fn encode_rear(&mut self, bytes: &[u8])
        requires
            old(self).wf(),
            nul_free(bytes@),
            old(self).len % old(self).k != 0,
        ensures
            final(self).data@ == old(self).data@ + entry(old(self).strings@.push(bytes@), old(self).k as nat, old(self).len as int),
            final(self).pointers == old(self).pointers,
            final(self).k == old(self).k,
            final(self).len == old(self).len,
            final(self).strings == old(self).strings,
            final(self).last_str == old(self).last_str,
    {
        let ghost l1 = self.strings@.push(bytes@);
        let ghost k = self.k as nat;
        let ghost n = self.len as nat;
        let ghost d0 = self.data@;
        let lcp_len = longest_common_prefix(self.last_str.as_slice(), bytes);
        self.stats.max_lcp = max_of(self.stats.max_lcp, lcp_len);
        self.stats.sum_lcp = sat_add(self.stats.sum_lcp, lcp_len);
        let rear_length = self.last_str.len() - lcp_len;
        let prev_len = self.data.len();
        encode_int(rear_length as u64, &mut self.data);
        let code_len = self.data.len() - prev_len;
        self.stats.code_bytes = sat_add(self.stats.code_bytes, code_len);
        Self::append_from(&mut self.data, bytes, lcp_len);
        self.data.push(0);
        self.stats.suffixes_bytes = sat_add(self.stats.suffixes_bytes, sat_add(bytes.len() - lcp_len, 1));
        proof {
            if n == 0 {
                assert(0int % (k as int) == 0) by (nonlinear_arith)
                    requires
                        k >= 1,
                ;
            }
            assert(n > 0);
            assert(l1[n - 1] == self.strings@[n - 1]);
            assert(l1[n - 1] == self.last_str@);
            assert(l1[n as int] == bytes@);
            assert(self.data@ =~= d0 + entry(l1, k, n as int));
        }
    }

    /// Appends `string`, which must hold no zero byte.
    pub fn push(&mut self, string: &str)
        requires
            old(self).wf(),
            nul_free(string.spec_bytes()),
        ensures
            final(self).wf(),
            final(self)@ == old(self)@.push(string.spec_bytes()),
            final(self).block_size() == old(self).block_size(),
            final(self).data() == old(self).data() + entry(
                final(self)@,
                old(self).block_size(),
                old(self)@.len() as int,
            ),
            old(self)@.len() % old(self).block_size() == 0 ==> final(self).pointers()
                == old(self).pointers().push(old(self).data().len() as usize),
            old(self)@.len() % old(self).block_size() != 0 ==> final(self).pointers()
                == old(self).pointers(),
    {
        let bytes = string.as_bytes();
        let ghost l0 = self.strings@;
        let ghost l1 = l0.push(bytes@);
        let ghost k = self.k as nat;
        let ghost n = self.len as nat;
        let ghost ptrs_before = self.pointers@;
        let ghost d0 = self.data@;
        self.stats.max_str_len = max_of(self.stats.max_str_len, bytes.len());
        self.stats.sum_str_len = sat_add(self.stats.sum_str_len, bytes.len());
        if self.len % self.k == 0 {
            self.encode_head(bytes);
        } else {
            self.encode_rear(bytes);
        }
        self.last_str.clear();
        Self::append_from(&mut self.last_str, bytes, 0);
        proof {
            assert(l1.subrange(0, n as int) =~= l0.subrange(0, n as int));
            lemma_encoding_frame(l0, l1, k, n);
            assert(l0 =~= l0.subrange(0, n as int));
            lemma_encoding_prefix(l1, k, n, n + 1);
            assert(encoding(l1, k, n + 1) =~= encoding(l1, k, n) + entry(l1, k, n as int));
            assert(self.data@ =~= encoding(l1, k, n + 1));
            assert(self.last_str@ =~= bytes@);
            lemma_encoding_len(l1, k, n + 1);
        }
        let dl = self.data.len();
        self.len = self.len + 1;
        self.strings = Ghost(l1);
        proof {
            assert forall|i: int| 0 <= i < l1.len() implies nul_free(#[trigger] l1[i]) by {
                if i < n {
                    assert(l1[i] == l0[i]);
                }
            }
            lemma_num_blocks_step(n, k);
            assert forall|b: int| 0 <= b < self.pointers@.len() implies #[trigger] self.pointers@[b] == encoding(l1, k, (b * k) as nat).len() by {
                if b < num_blocks(n, k) {
                    lemma_block_start(b, n, k);
                    assert(self.pointers@[b] == ptrs_before[b]);
                } else {
                    assert(b * k == n);
                    assert(self.pointers@[b] == d0.len());
                }
                assert(l1.subrange(0, b * k) =~= l0.subrange(0, b * k));
                lemma_encoding_frame(l0, l1, k, (b * k) as nat);
            }
        }
    }

    /// Facts about the entry of string `m` in the encoded data.
    proof fn lemma_entry(&self, m: nat)
        requires
            self.wf(),
            m < self.len,
        ensures
            encoding(self.strings@, self.k as nat, m + 1).len() == encoding(self.strings@, self.k as nat, m).len()
                + entry(self.strings@, self.k as nat, m as int).len(),
            encoding(self.strings@, self.k as nat, m + 1).len() <= self.data@.len(),
            self.data@.subrange(
                encoding(self.strings@, self.k as nat, m).len() as int,
                encoding(self.strings@, self.k as nat, m + 1).len() as int,
            ) == entry(self.strings@, self.k as nat, m as int),
    {
        lemma_encoding_prefix(self.strings@, self.k as nat, m, self.len as nat);
    }

    /// Decodes the string that follows string `m - 1` of its block: `result`
    /// holds string `m - 1` before and string `m` after, and `pos` moves
    /// from the start of its entry to the end.
    fn decode_next(&self, m: usize, pos: usize, result: &mut Vec<u8>) -> (r: usize)
        requires
            self.wf(),
            0 < m < self.len,
            m % self.k != 0,
            pos == encoding(self.strings@, self.k as nat, m as nat).len(),
            old(result)@ == self.strings@[m - 1],
        ensures
            final(result)@ == self.strings@[m as int],
            r == encoding(self.strings@, self.k as nat, (m + 1) as nat).len(),
    {
        let ghost l = self.strings@;
        let ghost k = self.k as nat;
        let ghost prev = l[m - 1];
        let ghost cur = l[m as int];
        let ghost c = lcp(prev, cur);
        let ghost rl = (prev.len() - c) as u64;
        let ghost suf = cur.subrange(c as int, cur.len() as int);
        let ghost d = self.data@;
        proof {
            self.lemma_entry(m as nat);
            assert(entry(l, k, m as int) == vbyte(rl) + suf + seq![0u8]);
            let end = encoding(l, k, (m + 1) as nat).len() as int;
            let rest = d.subrange(pos + vbyte(rl).len(), d.len() as int);
            assert(d.subrange(pos as int, d.len() as int) =~= vbyte(rl) + rest) by {
                assert forall|t: int| 0 <= t < vbyte(rl).len() implies d[pos + t] == vbyte(rl)[t] by {
                    assert(d.subrange(pos as int, end)[t] == entry(l, k, m as int)[t]);
                }
            }
            lemma_vbyte_round_trip(rl, rest);
            assert(d[pos as int] == vbyte(rl)[0]);
            assert((vbyte(rl) + rest)[0] == vbyte(rl)[0]);
            assert(prev.subrange(0, 0) =~= cur.subrange(0, 0));
            lemma_lcp(prev, cur, 0);
        }
        let (dropped, p) = decode_int(self.data.as_slice(), pos);
        proof {
            assert(self.data@.subrange(pos as int, self.data@.len() as int) == vbyte(rl) + d.subrange(pos + vbyte(rl).len(), d.len() as int));
            assert(dropped == rl);
            assert(p == pos + vbyte(rl).len());
            let end = encoding(l, k, (m + 1) as nat).len() as int;
            assert(d.subrange(p as int, p + suf.len() + 1) =~= suf + seq![0u8]) by {
                assert forall|t: int| 0 <= t < suf.len() + 1 implies d[p + t] == (suf + seq![0u8])[t] by {
                    assert(d.subrange(pos as int, end)[vbyte(rl).len() + t] == entry(l, k, m as int)[vbyte(rl).len() + t]);
                }
            }
            assert(nul_free(cur));
            assert(nul_free(suf));
        }
        result.truncate(result.len() - dropped as usize);
        proof {
            assert(result@ == prev.subrange(0, c as int));
        }
        let r = strcpy(&self.data, p, result, Ghost(suf));
        proof {
            assert(result@ =~= cur);
        }
        r
    }

    /// Appends the strings of `strings` in order; none may hold a zero byte.
    pub fn extend(&mut self, strings: &[&str])
        requires
            old(self).wf(),
            forall|i: int| 0 <= i < strings@.len() ==> nul_free((#[trigger] strings@[i]).spec_bytes()),
        ensures
            final(self).wf(),
            final(self)@ == old(self)@ + Seq::new(strings@.len(), |i: int| strings@[i].spec_bytes()),
            final(self).block_size() == old(self).block_size(),
    {
        let mut i: usize = 0;
        while i < strings.len()
            invariant
                self.wf(),
                i <= strings@.len(),
                self@ == old(self)@ + Seq::new(i as nat, |t: int| strings@[t].spec_bytes()),
                self.block_size() == old(self).block_size(),
                forall|t: int| 0 <= t < strings@.len() ==> nul_free((#[trigger] strings@[t]).spec_bytes()),
            decreases strings@.len() - i,
        {
            self.push(strings[i]);
            i += 1;
            proof {
                assert(self@ =~= old(self)@ + Seq::new(i as nat, |t: int| strings@[t].spec_bytes()));
            }
        }
        proof {
            assert(Seq::new(i as nat, |t: int| strings@[t].spec_bytes()) =~= Seq::new(strings@.len(), |t: int| strings@[t].spec_bytes()));
        }
    }

    /// Gives back the memory reserved beyond what the data needs.
    pub fn shrink_to_fit(&mut self)
        requires
            old(self).wf(),
        ensures
            final(self).wf(),
            final(self)@ == old(self)@,
            final(self).block_size() == old(self).block_size(),
    {
        shrink_vec(&mut self.data);
        shrink_vec(&mut self.pointers);
        shrink_vec(&mut self.last_str);
    }

    /// Writes string `index` into `result`.
    pub fn get_inplace(&self, index: usize, result: &mut Vec<u8>)
        requires
            self.wf(),
            index < self@.len(),
        ensures
            final(result)@ == self@[index as int],
    {
        let ghost l = self.strings@;
        let ghost k = self.k as nat;
        result.clear();
        let block = index / self.k;
        let offset = index % self.k;
        proof {
            vstd::arithmetic::div_mod::lemma_fundamental_div_mod(index as int, k as int);
            vstd::arithmetic::div_mod::lemma_mod_pos_bound(index as int, k as int);
            assert(block * k == k * block) by (nonlinear_arith);
        }
        let bk = block * self.k;
        proof {
            assert(block < num_blocks(self.len as nat, k)) by (nonlinear_arith)
                requires
                    block as int == index as int / k as int,
                    index < self.len,
                    k >= 1,
            ;
            self.lemma_head(block as int);
        }
        let start = self.pointers[block];
        let mut pos = strcpy(&self.data, start, result, Ghost(l[bk as int]));
        proof {
            assert(result@ =~= l[bk as int]);
        }
        let mut j: usize = 0;
        while j < offset
            invariant
                self.wf(),
                l == self.strings@,
                k == self.k,
                bk + offset == index,
                index < self.len,
                offset < k,
                (bk as int) % (k as int) == 0,
                j <= offset,
                pos == encoding(l, k, (bk + j + 1) as nat).len(),
                result@ == l[bk + j],
            decreases offset - j,
        {
            proof {
                lemma_mod_offset(bk as int, (j + 1) as int, k as int);
            }
            pos = self.decode_next(bk + j + 1, pos, result);
            j += 1;
        }
    }

    /// String `index`.
    pub fn get(&self, index: usize) -> (r: Vec<u8>)
        requires
            self.wf(),
            index < self@.len(),
        ensures
            r@ == self@[index as int],
    {
        let mut result: Vec<u8> = Vec::new();
        self.get_inplace(index, &mut result);
        result
    }

    /// In a sorted list, block heads are in order.
    proof fn lemma_heads_sorted(&self, a: int, b: int)
        requires
            self.wf(),
            sorted(self.strings@),
            0 <= a < b < self.pointers@.len(),
        ensures
            self.strings@[a * self.k] == self.strings@[b * self.k] || lex_lt(self.strings@[a * self.k], self.strings@[b * self.k]),
    {
        lemma_block_start(b, self.len as nat, self.k as nat);
        assert(a * self.k < b * self.k) by (nonlinear_arith)
            requires
                a < b,
                self.k >= 1,
        ;
    }

    /// The head of block `b` starts where its pointer says.
    proof fn lemma_head(&self, b: int)
        requires
            self.wf(),
            0 <= b < self.pointers@.len(),
        ensures
            b * self.k < self.len,
            (b * self.k) % (self.k as int) == 0,
            self.pointers@[b] + self.strings@[b * self.k].len() + 1 <= self.data@.len(),
            self.data@.subrange(self.pointers@[b] as int, self.pointers@[b] + self.strings@[b * self.k].len() + 1)
                == self.strings@[b * self.k] + seq![0u8],
            self.pointers@[b] == encoding(self.strings@, self.k as nat, (b * self.k) as nat).len(),
            encoding(self.strings@, self.k as nat, (b * self.k + 1) as nat).len() == self.pointers@[b] + self.strings@[b * self.k].len() + 1,
            nul_free(self.strings@[b * self.k]),
    {
        let k = self.k as int;
        lemma_block_start(b, self.len as nat, self.k as nat);
        vstd::arithmetic::div_mod::lemma_fundamental_div_mod_converse(b * k, k, b, 0);
        self.lemma_entry((b * k) as nat);
    }

    /// Whether `string` is one of the strings; exact when the strings were
    /// pushed in sorted order.
    pub fn contains(&self, string: &str) -> (r: bool)
        requires
            self.wf(),
        ensures
            sorted(self@) ==> (r <==> self@.contains(string.spec_bytes())),
    {
        let s = string.as_bytes();
        let ghost l = self.strings@;
        let ghost k = self.k as nat;
        let ghost q = s@;
        proof {
            assert(self@ == l);
            assert(q == string.spec_bytes());
        }
        let mut z: usize = 0;
        while z < s.len()
            invariant
                self.wf(),
                l == self.strings@,
                self@ == l,
                q == string.spec_bytes(),
                q == s@,
                z <= s@.len(),
                forall|t: int| 0 <= t < z ==> s@[t] != 0,
            decreases s@.len() - z,
        {
            if s[z] == 0 {
                proof {
                    assert forall|m: int| 0 <= m < l.len() implies l[m] != q by {
                        assert(nul_free(l[m]));
                        if l[m] == q {
                            assert(l[m][z as int] == 0);
                        }
                    }
                }
                return false;
            }
            z += 1;
        }
        let nb = self.pointers.len();
        let mut lo: usize = 0;
        let mut hi: usize = nb;
        while lo < hi
            invariant
                self.wf(),
                l == self.strings@,
                self@ == l,
                q == string.spec_bytes(),
                k == self.k,
                q == s@,
                nul_free(q),
                nb == self.pointers@.len(),
                lo <= hi <= nb,
                sorted(l) ==> forall|b: int| 0 <= b < lo ==> #[trigger] lex_lt(l[b * k], q),
                sorted(l) ==> forall|b: int| hi <= b < nb ==> #[trigger] lex_lt(q, l[b * k]),
            decreases hi - lo,
        {
            let mid = lo + (hi - lo) / 2;
            proof {
                self.lemma_head(mid as int);
            }
            let ptr = self.pointers[mid];
            let ord = strcmp(s, &self.data, ptr, Ghost(l[mid * k]));
            match ord {
                core::cmp::Ordering::Equal => {
                    proof {
                        assert(0 <= mid * k < l.len());
                        assert(l[mid * k] == q);
                        assert(l.contains(q));
                    }
                    return true;
                },
                core::cmp::Ordering::Less => {
                    proof {
                        assert(lex_lt(l[mid * k], q));
                        if sorted(l) {
                            assert forall|b: int| 0 <= b < mid + 1 implies #[trigger] lex_lt(l[b * k], q) by {
                                if b < mid && b >= lo {
                                    self.lemma_heads_sorted(b, mid as int);
                                    if l[b * k] != l[mid * k] {
                                        lemma_lex_trans(l[b * k], l[mid * k], q);
                                    }
                                }
                            }
                        }
                    }
                    lo = mid + 1;
                },
                core::cmp::Ordering::Greater => {
                    proof {
                        lemma_lex_total(l[mid * k], q);
                        if sorted(l) {
                            assert forall|b: int| mid <= b < nb implies #[trigger] lex_lt(q, l[b * k]) by {
                                if b > mid && b < hi {
                                    self.lemma_heads_sorted(mid as int, b);
                                    if l[b * k] != l[mid * k] {
                                        lemma_lex_trans(q, l[mid * k], l[b * k]);
                                    }
                                }
                            }
                        }
                    }
                    hi = mid;
                },
            }
        }
        if lo == 0 {
            proof {
                if nb > 0 && sorted(l) {
                    assert(lex_lt(q, l[0int * k]));
                    assert forall|m: int| 0 <= m < l.len() implies l[m] != q by {
                        lemma_not_after(l, 0, m, q);
                    }
                } else if nb == 0 {
                    assert(self.len == 0) by (nonlinear_arith)
                        requires
                            nb == num_blocks(self.len as nat, k),
                            nb == 0,
                            k >= 1,
                    ;
                }
            }
            return false;
        }
        let block = lo - 1;
        proof {
            self.lemma_head(block as int);
        }
        let bk = block * self.k;
        let mut result: Vec<u8> = Vec::new();
        let start = self.pointers[block];
        let mut pos = strcpy(&self.data, start, &mut result, Ghost(l[bk as int]));
        proof {
            assert(result@ =~= l[bk as int]);
        }
        proof {
            if sorted(l) {
                assert(lex_lt(l[block * k], q));
                lemma_lex_asym(q, q);
            }
        }
        let in_block = if self.k - 1 <= self.len - bk - 1 { self.k - 1 } else { self.len - bk - 1 };
        let mut j: usize = 0;
        while j < in_block
            invariant
                self.wf(),
                l == self.strings@,
                self@ == l,
                q == string.spec_bytes(),
                k == self.k,
                q == s@,
                nul_free(q),
                bk == block * k,
                (bk as int) % (k as int) == 0,
                block + 1 == lo,
                bk < self.len,
                in_block <= k - 1,
                bk + in_block < self.len,
                sorted(l) ==> lex_lt(l[bk as int], q),
                lo <= nb,
                sorted(l) ==> forall|b: int| lo <= b < nb ==> #[trigger] lex_lt(q, l[b * k]),
                j <= in_block,
                pos == encoding(l, k, (bk + j + 1) as nat).len(),
                result@ == l[bk + j],
                sorted(l) ==> forall|m: int| bk <= m <= bk + j ==> #[trigger] l[m] != q,
            decreases in_block - j,
        {
            proof {
                lemma_mod_offset(bk as int, (j + 1) as int, k as int);
            }
            pos = self.decode_next(bk + j + 1, pos, &mut result);
            proof {
                assert(nul_free(l[bk + j + 1]));
            }
            match strcmp_rust(s, result.as_slice()) {
                core::cmp::Ordering::Less => {},
                core::cmp::Ordering::Equal => {
                    proof {
                        let m0 = bk + j + 1;
                        assert(l[m0] == q);
                        assert(l.contains(q));
                    }
                    return true;
                },
                core::cmp::Ordering::Greater => {
                    proof {
                        let m0 = bk + j + 1;
                        lemma_lex_total(l[m0], q);
                        if sorted(l) {
                        assert forall|m: int| 0 <= m < l.len() implies l[m] != q by {
                            if m > m0 {
                                lemma_not_after(l, m0, m, q);
                            } else if m < bk {
                                lemma_not_before(l, m, bk as int, q);
                            } else if m < m0 {
                                assert(l[m] != q);
                            }
                        }
                        }
                    }
                    return false;
                },
            }
            proof {
                lemma_lex_asym(l[bk + j + 1], l[bk + j + 1]);
            }
            j += 1;
        }
        proof {
            if sorted(l) {
            assert forall|m: int| 0 <= m < l.len() implies l[m] != q by {
                if m < bk {
                    lemma_not_before(l, m, bk as int, q);
                } else if m > bk + in_block {
                    if in_block == k - 1 {
                        assert(m >= lo * k) by (nonlinear_arith)
                            requires
                                m > bk + in_block,
                                in_block == k - 1,
                                bk == block * k,
                                lo == block + 1,
                        ;
                        assert(lo * k < self.len);
                        assert(lo < nb) by (nonlinear_arith)
                            requires
                                lo * k < self.len,
                                nb == num_blocks(self.len as nat, k),
                                k >= 1,
                        ;
                        assert(lex_lt(q, l[lo * k]));
                        lemma_not_after(l, lo * k, m, q);
                    }
                }
            }
            }
        }
        false
    }
}

/// A copy of `v`.
fn copy_bytes(v: &Vec<u8>) -> (r: Vec<u8>)
    ensures
        r@ == v@,
{
    let mut r: Vec<u8> = Vec::new();
    let mut i: usize = 0;
    while i < v.len()
        invariant
            i <= v@.len(),
            r@ == v@.subrange(0, i as int),
        decreases v@.len() - i,
    {
        r.push(v[i]);
        i += 1;
        proof {
            assert(r@ =~= v@.subrange(0, i as int));
        }
    }
    proof {
        assert(v@.subrange(0, v@.len() as int) =~= v@);
    }
    r
}

/// A sequential walk over the strings of a list, decoding each from the
/// previous one.
pub struct RCAIter<'a> {
    rca: &'a RearCodedList,
    buffer: Vec<u8>,
    pos: usize,
    index: usize,
}

impl<'a> RCAIter<'a> {
    /// The strings walked over.
    pub closed spec fn list(&self) -> Seq<Seq<u8>> {
        self.rca@
    }

    /// The index of the next string.
    pub closed spec fn index(&self) -> nat {
        self.index as nat
    }

    pub closed spec fn wf(&self) -> bool {
        let l = self.rca.strings@;
        &&& self.rca.wf()
        &&& self.index <= self.rca.len
        &&& self.pos == encoding(l, self.rca.k as nat, self.index as nat).len()
        &&& self.index % self.rca.k != 0 ==> self.buffer@ == l[self.index - 1]
    }

    /// A walk from the first string.
    pub fn new(rca: &'a RearCodedList) -> (r: Self)
        requires
            rca.wf(),
        ensures
            r.wf(),
            r.list() == rca@,
            r.index() == 0,
    {
        RCAIter { rca, buffer: Vec::new(), pos: 0, index: 0 }
    }

    /// The next string, if any is left.
    pub fn next(&mut self) -> (r: Option<Vec<u8>>)
        requires
            old(self).wf(),
        ensures
            final(self).wf(),
            final(self).list() == old(self).list(),
            old(self).index() < old(self).list().len() ==> final(self).index() == old(self).index() + 1,
            old(self).index() < old(self).list().len() ==> (r matches Some(v) && v@ == old(self).list()[old(self).index() as int]),
            old(self).index() >= old(self).list().len() ==> final(self).index() == old(self).index() && r.is_none(),
    {
        if self.index >= self.rca.len {
            return None;
        }
        let ghost l = self.rca.strings@;
        if self.index % self.rca.k == 0 {
            self.buffer.clear();
            proof {
                self.rca.lemma_entry(self.index as nat);
                let m = self.index as int;
                let kk = self.rca.k as int;
                assert(entry(l, kk as nat, m) == l[m] + seq![0u8]);
                assert(nul_free(l[m]));
            }
            self.pos = strcpy(&self.rca.data, self.pos, &mut self.buffer, Ghost(l[self.index as int]));
            proof {
                assert(self.buffer@ =~= l[self.index as int]);
            }
        } else {
            proof {
                if self.index == 0 {
                    assert(0int % (self.rca.k as int) == 0) by (nonlinear_arith)
                        requires
                            self.rca.k >= 1,
                    ;
                }
            }
            self.pos = self.rca.decode_next(self.index, self.pos, &mut self.buffer);
        }
        self.index += 1;
        Some(copy_bytes(&self.buffer))
    }

    /// The number of strings left.
    pub fn len(&self) -> (r: usize)
        requires
            self.wf(),
        ensures
            r == self.list().len() - self.index(),
    {
        self.rca.len - self.index
    }
}

impl RearCodedList {
    /// A walk over all the strings.
    pub fn iter(&self) -> (r: RCAIter<'_>)
        requires
            self.wf(),
        ensures
            r.wf(),
            r.list() == self@,
            r.index() == 0,
    {
        RCAIter::new(self)
    }

    /// A walk over the strings from string `index` on.
    pub fn iter_from(&self, index: usize) -> (r: RCAIter<'_>)
        requires
            self.wf(),
            index <= self@.len(),
        ensures
            r.wf(),
            r.list() == self@,
            r.index() == index,
    {
        let block = index / self.k;
        let offset = index % self.k;
        proof {
            vstd::arithmetic::div_mod::lemma_fundamental_div_mod(index as int, self.k as int);
            vstd::arithmetic::div_mod::lemma_mod_pos_bound(index as int, self.k as int);
            assert(block * self.k == self.k * block) by (nonlinear_arith);
        }
        let start = block * self.k;
        let mut res = RCAIter { rca: self, buffer: Vec::new(), pos: 0, index: start };
        proof {
            vstd::arithmetic::div_mod::lemma_fundamental_div_mod_converse(start as int, self.k as int, block as int, 0);
        }
        if offset > 0 {
            proof {
                assert(block * self.k < self.len);
                assert(block < num_blocks(self.len as nat, self.k as nat)) by (nonlinear_arith)
                    requires
                        block * self.k < self.len,
                        self.k >= 1,
                ;
                self.lemma_head(block as int);
            }
            res.pos = self.pointers[block];
        } else {
            proof {
                if block < self.pointers@.len() {
                    self.lemma_head(block as int);
                } else {
                    lemma_num_blocks_step(0, self.k as nat);
                    assert(block * self.k >= self.len) by (nonlinear_arith)
                        requires
                            block >= num_blocks(self.len as nat, self.k as nat),
                            self.k >= 1,
                    ;
                    assert(index == self.len);
                }
            }
            res.pos = if block < self.pointers.len() { self.pointers[block] } else { self.data.len() };
        }
        let mut j: usize = 0;
        while j < offset
            invariant
                res.wf(),
                res.list() == self@,
                res.index() == start + j,
                self.wf(),
                index <= self@.len(),
                j <= offset,
                start + offset == index,
                index <= self.len,
            decreases offset - j,
        {
            res.next();
            j += 1;
        }
        res
    }
}

proof fn lemma_num_blocks_step(n: nat, k: nat)
    requires
        k >= 1,
    ensures
        n % k == 0 ==> num_blocks(n + 1, k) == num_blocks(n, k) + 1 && num_blocks(n, k) * k == n,
        n % k != 0 ==> num_blocks(n + 1, k) == num_blocks(n, k),
{
    vstd::arithmetic::div_mod::lemma_fundamental_div_mod(n as int, k as int);
    vstd::arithmetic::div_mod::lemma_mod_pos_bound(n as int, k as int);
    let q = (n / k) as int;
    let r = (n % k) as int;
    assert(n == q * k + r) by (nonlinear_arith)
        requires
            n == k * q + r,
    ;
    if r == 0 {
        assert(n + k - 1 == q * k + (k - 1));
        vstd::arithmetic::div_mod::lemma_fundamental_div_mod_converse((n + k - 1) as int, k as int, q, (k - 1) as int);
        assert(n + k == (q + 1) * k + 0) by (nonlinear_arith)
            requires
                n == q * k,
        ;
        vstd::arithmetic::div_mod::lemma_fundamental_div_mod_converse((n + k) as int, k as int, q + 1, 0);
    } else {
        assert(n + k - 1 == (q + 1) * k + (r - 1)) by (nonlinear_arith)
            requires
                n == q * k + r,
        ;
        vstd::arithmetic::div_mod::lemma_fundamental_div_mod_converse((n + k - 1) as int, k as int, q + 1, r - 1);
        assert(n + k == (q + 1) * k + r) by (nonlinear_arith)
            requires
                n == q * k + r,
        ;
        vstd::arithmetic::div_mod::lemma_fundamental_div_mod_converse((n + k) as int, k as int, q + 1, r);
    }
}

/// Positions `b + 1` to `b + k - 1` after a multiple `b` of `k` are not.
proof fn lemma_mod_offset(b: int, j: int, k: int)
    requires
        b % k == 0,
        b >= 0,
        1 <= j < k,
    ensures
        (b + j) % k == j,
        (b + j) % k != 0,
{
    vstd::arithmetic::div_mod::lemma_fundamental_div_mod(b, k);
    let q = b / k;
    assert(b + j == q * k + j) by (nonlinear_arith)
        requires
            b == k * q + b % k,
            b % k == 0,
    ;
    vstd::arithmetic::div_mod::lemma_fundamental_div_mod_converse(b + j, k, q, j);
}

pub proof fn lemma_lex_trans(a: Seq<u8>, b: Seq<u8>, c: Seq<u8>)
    requires
        lex_lt(a, b),
        lex_lt(b, c),
    ensures
        lex_lt(a, c),
    decreases a.len(),
{
    if a.len() > 0 && b.len() > 0 && c.len() > 0 && a[0] == b[0] && b[0] == c[0] {
        lemma_lex_trans(a.drop_first(), b.drop_first(), c.drop_first());
    }
}

/// Two strings are equal or ordered one way or the other.
proof fn lemma_lex_total(a: Seq<u8>, b: Seq<u8>)
    ensures
        a == b || lex_lt(a, b) || lex_lt(b, a),
    decreases a.len(),
{
    if a.len() > 0 && b.len() > 0 && a[0] == b[0] {
        lemma_lex_total(a.drop_first(), b.drop_first());
        if a.drop_first() == b.drop_first() {
            assert(a =~= seq![a[0]] + a.drop_first());
            assert(b =~= seq![b[0]] + b.drop_first());
        }
    } else if a.len() == 0 && b.len() == 0 {
        assert(a =~= b);
    }
}

/// In a sorted list, a string after one that comes after `q` is not `q`.
proof fn lemma_not_after(l: Seq<Seq<u8>>, a: int, m: int, q: Seq<u8>)
    requires
        0 <= a <= m < l.len(),
        lex_lt(q, l[a]),
    ensures
        sorted(l) ==> l[m] != q,
{
    lemma_lex_asym(q, l[a]);
}

/// In a sorted list, a string before one that comes before `q` is not `q`.
proof fn lemma_not_before(l: Seq<Seq<u8>>, m: int, a: int, q: Seq<u8>)
    requires
        0 <= m <= a < l.len(),
        lex_lt(l[a], q),
    ensures
        sorted(l) ==> l[m] != q,
{
    lemma_lex_asym(q, l[a]);
}

/// Block `b` starts at a string of the list.
proof fn lemma_block_start(b: int, n: nat, k: nat)
    requires
        k >= 1,
        0 <= b < num_blocks(n, k),
    ensures
        b * k < n,
{
    vstd::arithmetic::div_mod::lemma_fundamental_div_mod((n + k - 1) as int, k as int);
    vstd::arithmetic::div_mod::lemma_mod_pos_bound((n + k - 1) as int, k as int);
    let q = ((n + k - 1) as nat / k) as int;
    assert((b + 1) * k <= q * k) by (nonlinear_arith)
        requires
            b + 1 <= q,
            k >= 1,
    ;
    assert(q * k <= n + k - 1) by (nonlinear_arith)
        requires
            n + k - 1 == k * q + (n + k - 1) % (k as int),
            (n + k - 1) % (k as int) >= 0,
    ;
    assert((b + 1) * k == b * k + k) by (nonlinear_arith);
}

/// Compute the longest common prefix between two strings as bytes.
pub fn longest_common_prefix(a: &[u8], b: &[u8]) -> (r: usize)
    ensures
        r == lcp(a@, b@),
        r <= a@.len(),
        r <= b@.len(),
        a@.subrange(0, r as int) == b@.subrange(0, r as int),
{
    let min_len = if a.len() <= b.len() { a.len() } else { b.len() };
    let mut i: usize = 0;
    while i < min_len && a[i] == b[i]
        invariant
            i <= min_len,
            min_len == if a@.len() <= b@.len() { a@.len() } else { b@.len() },
            lcp_from(a@, b@, 0) == lcp_from(a@, b@, i as nat),
        decreases min_len - i,
    {
        i += 1;
    }
    proof {
        assert(a@.subrange(0, 0) =~= b@.subrange(0, 0));
        lemma_lcp(a@, b@, 0);
    }
    i
}

/// Copies the zero-terminated string `s` at `data[pos]` to the end of
/// `result`; returns the position after its terminator.
fn strcpy(data: &Vec<u8>, pos: usize, result: &mut Vec<u8>, Ghost(s): Ghost<Seq<u8>>) -> (r: usize)
    requires
        nul_free(s),
        pos + s.len() + 1 <= data@.len(),
        data@.subrange(pos as int, pos + s.len() + 1) == s + seq![0u8],
    ensures
        final(result)@ == old(result)@ + s,
        r == pos + s.len() + 1,
{
    let mut i = pos;
    let dl = data.len();
    proof {
        assert(data@[pos + s.len()] == (s + seq![0u8])[s.len() as int]);
    }
    while data[i] != 0
        invariant
            dl == data@.len(),
            pos <= i <= pos + s.len(),
            pos + s.len() + 1 <= data@.len(),
            nul_free(s),
            data@.subrange(pos as int, pos + s.len() + 1) == s + seq![0u8],
            result@ == old(result)@ + s.subrange(0, i - pos),
        decreases pos + s.len() - i,
    {
        proof {
            assert(data@[i as int] == (s + seq![0u8])[i - pos]);
            if i == pos + s.len() {
                assert(false);
            }
        }
        result.push(data[i]);
        i += 1;
        proof {
            assert(data@[i - 1] == s[i - 1 - pos]);
            assert(result@ =~= old(result)@ + s.subrange(0, i - pos));
        }
    }
    proof {
        assert(data@[i as int] == (s + seq![0u8])[i - pos]);
        if i < pos + s.len() {
            assert(s[i - pos] != 0);
        }
        assert(s.subrange(0, s.len() as int) =~= s);
    }
    i + 1
}

/// The order of the zero-terminated string `head` at `data[pos]` with
/// respect to `string`.
fn strcmp(string: &[u8], data: &Vec<u8>, pos: usize, Ghost(head): Ghost<Seq<u8>>) -> (r: core::cmp::Ordering)
    requires
        nul_free(head),
        nul_free(string@),
        pos + head.len() + 1 <= data@.len(),
        data@.subrange(pos as int, pos + head.len() + 1) == head + seq![0u8],
    ensures
        r == lex_cmp(head, string@),
{
    let ghost t = head + seq![0u8];
    let dl = data.len();
    let mut i: usize = 0;
    while i < string.len()
        invariant
            dl == data@.len(),
            i <= string@.len(),
            i <= head.len(),
            nul_free(head),
            nul_free(string@),
            pos + head.len() + 1 <= data@.len(),
            data@.subrange(pos as int, pos + head.len() + 1) == t,
            t == head + seq![0u8],
            head.subrange(0, i as int) == string@.subrange(0, i as int),
        decreases string@.len() - i,
    {
        let c = data[pos + i];
        proof {
            assert(c == t[i as int]);
        }
        if c != string[i] {
            proof {
                if i == head.len() {
                    assert(head =~= head.subrange(0, i as int));
                    lemma_prefix_lt(head, string@);
                    lemma_lex_asym(head, string@);
                } else {
                    lemma_cmp_at(head, string@, i as nat);
                }
            }
            if c < string[i] {
                return core::cmp::Ordering::Less;
            } else {
                return core::cmp::Ordering::Greater;
            }
        }
        proof {
            if i == head.len() {
                assert(c == 0);
                assert(string@[i as int] != 0);
            }
            assert(head.subrange(0, i + 1) =~= head.subrange(0, i as int).push(head[i as int]));
            assert(string@.subrange(0, i + 1) =~= string@.subrange(0, i as int).push(string@[i as int]));
        }
        i += 1;
    }
    let c = data[pos + i];
    proof {
        assert(c == t[i as int]);
        assert(string@.subrange(0, i as int) =~= string@);
        lemma_cmp_tail(head, string@, i as nat);
        if c == 0 {
            assert(i == head.len());
        }
    }
    if c == 0 {
        core::cmp::Ordering::Equal
    } else {
        core::cmp::Ordering::Greater
    }
}

/// The order of `other` with respect to `string`, both held whole.
fn strcmp_rust(string: &[u8], other: &[u8]) -> (r: core::cmp::Ordering)
    requires
        nul_free(string@),
        nul_free(other@),
    ensures
        r == lex_cmp(other@, string@),
{
    let mut i: usize = 0;
    while i < string.len()
        invariant
            i <= string@.len(),
            i <= other@.len(),
            nul_free(string@),
            nul_free(other@),
            other@.subrange(0, i as int) == string@.subrange(0, i as int),
        decreases string@.len() - i,
    {
        if i >= other.len() {
            proof {
                assert(other@.subrange(0, i as int) =~= other@);
                lemma_prefix_lt(other@, string@);
            }
            return core::cmp::Ordering::Less;
        }
        let c = other[i];
        if c != string[i] {
            proof {
                lemma_cmp_at(other@, string@, i as nat);
            }
            if c < string[i] {
                return core::cmp::Ordering::Less;
            } else {
                return core::cmp::Ordering::Greater;
            }
        }
        proof {
            assert(other@.subrange(0, i + 1) =~= other@.subrange(0, i as int).push(other@[i as int]));
            assert(string@.subrange(0, i + 1) =~= string@.subrange(0, i as int).push(string@[i as int]));
        }
        i += 1;
    }
    proof {
        assert(string@.subrange(0, i as int) =~= string@);
        lemma_cmp_tail(other@, string@, i as nat);
        if other@.len() == i {
            assert(other@ =~= other@.subrange(0, i as int));
            assert(string@ =~= string@.subrange(0, i as int));
        }
    }
    if other.len() == string.len() {
        core::cmp::Ordering::Equal
    } else {
        core::cmp::Ordering::Greater
    }
}

/// Two strings that agree before `i` and differ at `i` are ordered by the
/// bytes at `i`.
proof fn lemma_cmp_at(a: Seq<u8>, b: Seq<u8>, i: nat)
    requires
        i < a.len(),
        i < b.len(),
        a.subrange(0, i as int) == b.subrange(0, i as int),
        a[i as int] != b[i as int],
    ensures
        a != b,
        lex_lt(a, b) == (a[i as int] < b[i as int]),
        lex_cmp(a, b) == if a[i as int] < b[i as int] { core::cmp::Ordering::Less } else { core::cmp::Ordering::Greater },
    decreases i,
{
    if i > 0 {
        assert(a.subrange(0, i as int)[0] == a[0]);
        assert(b.subrange(0, i as int)[0] == b[0]);
        assert(a.subrange(0, i as int)[0] == b.subrange(0, i as int)[0]);
        assert(a[0] == b[0]);
        assert(a.drop_first().subrange(0, i - 1) =~= a.subrange(0, i as int).drop_first());
        assert(b.drop_first().subrange(0, i - 1) =~= b.subrange(0, i as int).drop_first());
        assert(a.drop_first()[i - 1] == a[i as int]);
        assert(b.drop_first()[i - 1] == b[i as int]);
        lemma_cmp_at(a.drop_first(), b.drop_first(), (i - 1) as nat);
    }
    assert(a[i as int] != b[i as int]);
}

/// A proper prefix comes first.
proof fn lemma_prefix_lt(a: Seq<u8>, b: Seq<u8>)
    requires
        a.len() < b.len(),
        a == b.subrange(0, a.len() as int),
    ensures
        lex_lt(a, b),
        a != b,
    decreases a.len(),
{
    if a.len() > 0 {
        assert(a[0] == b[0]);
        assert(a.drop_first() =~= b.drop_first().subrange(0, a.len() - 1));
        lemma_prefix_lt(a.drop_first(), b.drop_first());
    }
}

/// Two strings that agree on all of `b`: `a` is `b` or comes after it.
proof fn lemma_cmp_tail(a: Seq<u8>, b: Seq<u8>, i: nat)
    requires
        i == b.len(),
        i <= a.len(),
        a.subrange(0, i as int) == b,
    ensures
        lex_cmp(a, b) == if a.len() == i { core::cmp::Ordering::Equal } else { core::cmp::Ordering::Greater },
{
    if a.len() == i {
        assert(a =~= a.subrange(0, i as int));
    } else {
        lemma_prefix_lt(b, a);
        lemma_lex_asym(a, b);
    }
}

} // verus!
