use vstd::prelude::*;
use vstd::string::StrSliceExecFns;
use crate::chars_to_string;

verus! {

/// Whether a character may appear in a transposition keyword.
pub uninterp spec fn is_alpha(c: char) -> bool;

/// Relies on char::is_alphabetic: a fixed classification of the character.
#[verifier::external_body]
fn char_is_alphabetic(c: char) -> (r: bool)
    ensures
        r == is_alpha(c),
{
    c.is_alphabetic()
}

/// A keyword is fit for use when it holds only alphabetic characters and no
/// character twice.
pub fn check_keyword(s: &str) -> (r: bool)
    ensures
        r == ((forall|i: int| 0 <= i < s@.len() ==> is_alpha(s@[i])) && (forall|i: int, j: int|
            0 <= i < j < s@.len() ==> s@[i] != s@[j])),
{
    let n = s.unicode_len();
    let mut seen: Vec<char> = Vec::new();
    let mut i: usize = 0;
    while i < n
        invariant
            n == s@.len(),
            i <= n,
            seen@ == s@.take(i as int),
            forall|k: int| 0 <= k < i ==> is_alpha(s@[k]),
            forall|k: int, l: int| 0 <= k < l < i ==> s@[k] != s@[l],
        decreases n - i,
    {
        let c = s.get_char(i);
        if !char_is_alphabetic(c) {
            return false;
        }
        let mut j: usize = 0;
        while j < seen.len()
            invariant
                seen@ == s@.take(i as int),
                i < n,
                n == s@.len(),
                j <= seen@.len(),
                c == s@[i as int],
                forall|k: int| 0 <= k < j ==> seen@[k] != c,
            decreases seen@.len() - j,
        {
            if seen[j] == c {
                return false;
            }
            j = j + 1;
        }
        proof {
            assert forall|k: int| 0 <= k < i implies s@[k] != s@[i as int] by {
                assert(seen@[k] == s@.take(i as int)[k]);
            }
        }
        seen.push(c);
        proof {
            assert(seen@ =~= s@.take(i + 1));
        }
        i = i + 1;
    }
    true
}

/// Ghost image of the cipher: the keyword, how many characters have been
/// fed in, and one column of characters per distinct keyword character,
/// ordered by that character.
pub ghost struct CipherModel {
    pub keyword: Seq<char>,
    pub position: int,
    pub words: Seq<(char, Seq<char>)>,
}

impl CipherModel {
    /// Columns are strictly sorted by their key, and the keys are exactly
    /// the characters of the keyword.
    pub open spec fn well_formed(self) -> bool {
        &&& forall|i: int, j: int|
            0 <= i < j < self.words.len() ==> (#[trigger] self.words[i]).0 < (
            #[trigger] self.words[j]).0
        &&& key_set_matches(keys_of(self.words), self.keyword, self.keyword.len() as int)
    }

    /// The keyword character that the next fed character belongs to.
    pub open spec fn current_key(self) -> char {
        self.keyword[self.position % self.keyword.len() as int]
    }

    /// Where the column of `k` stands, when it exists.
    pub open spec fn index_of_key(self, k: char) -> int {
        choose|j: int| 0 <= j < self.words.len() && (#[trigger] self.words[j]).0 == k
    }

    /// The cipher after one character is fed in: the character joins the
    /// column of the keyword character at the current position.
    pub open spec fn after_add(self, c: char) -> CipherModel {
        let j = self.index_of_key(self.current_key());
        CipherModel {
            keyword: self.keyword,
            position: self.position + 1,
            words: self.words.update(j, (self.current_key(), self.words[j].1.push(c))),
        }
    }

    /// The cipher after a whole string is fed in.
    pub open spec fn after_write(self, s: Seq<char>) -> CipherModel
        decreases s.len(),
    {
        if s.len() == 0 {
            self
        } else {
            self.after_write(s.drop_last()).after_add(s.last())
        }
    }

    /// The character that reading position `pos` yields: element
    /// `pos / keyword.len()` of the column of the keyword character at
    /// `pos % keyword.len()`, if that column is long enough.
    pub open spec fn read_at(self, pos: int) -> Option<char> {
        let k = self.keyword[pos % self.keyword.len() as int];
        let j = self.index_of_key(k);
        if 0 <= j < self.words.len() && self.words[j].0 == k {
            if pos / (self.keyword.len() as int) < self.words[j].1.len() {
                Some(self.words[j].1[pos / self.keyword.len() as int])
            } else {
                None
            }
        } else {
            None
        }
    }
}

/// The keys of the columns, in column order.
pub open spec fn keys_of<T>(words: Seq<(char, T)>) -> Seq<char> {
    Seq::new(words.len(), |j: int| words[j].0)
}

/// Column `j`'s key occurs among the first `i` keyword characters.
pub open spec fn key_among(keys: Seq<char>, kw: Seq<char>, i: int, j: int) -> bool {
    exists|a: int| 0 <= a < i && keys[j] == #[trigger] kw[a]
}

/// Keyword character `a` is some column's key.
pub open spec fn column_for(keys: Seq<char>, kw: Seq<char>, a: int) -> bool {
    exists|j: int| 0 <= j < keys.len() && #[trigger] keys[j] == kw[a]
}

/// Every column's key occurs among the first `i` keyword characters. The
/// quantifiers trigger on the named predicates, so the two directions
/// cannot feed each other during proof search.
pub open spec fn keys_from_keyword(keys: Seq<char>, kw: Seq<char>, i: int) -> bool {
    forall|j: int| 0 <= j < keys.len() ==> #[trigger] key_among(keys, kw, i, j)
}

/// Each of the first `i` keyword characters is some column's key.
pub open spec fn keyword_covered(keys: Seq<char>, kw: Seq<char>, i: int) -> bool {
    forall|a: int| 0 <= a < i ==> #[trigger] column_for(keys, kw, a)
}

/// The column keys are exactly the characters among the first `i` of the
/// keyword.
pub open spec fn key_set_matches(keys: Seq<char>, kw: Seq<char>, i: int) -> bool {
    keys_from_keyword(keys, kw, i) && keyword_covered(keys, kw, i)
}

/// A character among the first `i` of the keyword is some column's key.
proof fn lemma_column_exists(keys: Seq<char>, kw: Seq<char>, i: int, a: int)
    requires
        key_set_matches(keys, kw, i),
        0 <= a < i,
    ensures
        exists|j: int| 0 <= j < keys.len() && #[trigger] keys[j] == kw[a],
{
    assert(column_for(keys, kw, a));
}

/// One step of building the columns: inserting the column of character `i`
/// of the keyword extends the match by one character.
proof fn lemma_key_set_step(before: Seq<char>, after: Seq<char>, kw: Seq<char>, i: int)
    requires
        key_set_matches(before, kw, i),
        0 <= i < kw.len(),
        exists|j: int| 0 <= j < after.len() && #[trigger] after[j] == kw[i],
        forall|j: int|
            0 <= j < after.len() ==> (#[trigger] after[j] == kw[i] || exists|a: int|
                0 <= a < before.len() && #[trigger] before[a] == after[j]),
        forall|a: int|
            0 <= a < before.len() ==> exists|j: int|
                0 <= j < after.len() && #[trigger] after[j] == #[trigger] before[a],
    ensures
        key_set_matches(after, kw, i + 1),
{
    assert forall|j: int| 0 <= j < after.len() implies #[trigger] key_among(
        after,
        kw,
        i + 1,
        j,
    ) by {
        if after[j] == kw[i] {
            assert(after[j] == kw[i]);
        } else {
            let b = choose|a: int| 0 <= a < before.len() && #[trigger] before[a] == after[j];
            assert(0 <= b < before.len() && before[b] == after[j]);
            assert(key_among(before, kw, i, b));
            let a2 = choose|a: int| 0 <= a < i && before[b] == #[trigger] kw[a];
            assert(after[j] == kw[a2]);
        }
    }
    assert forall|a: int| 0 <= a < i + 1 implies #[trigger] column_for(after, kw, a) by {
        if a == i {
            let j = choose|j: int| 0 <= j < after.len() && #[trigger] after[j] == kw[i];
            assert(after[j] == kw[a]);
        } else {
            assert(column_for(before, kw, a));
            let j0 = choose|j: int| 0 <= j < before.len() && #[trigger] before[j] == kw[a];
            assert(0 <= j0 < before.len() && before[j0] == kw[a]);
            let j1 = choose|j: int|
                0 <= j < after.len() && #[trigger] after[j] == #[trigger] before[j0];
            assert(after[j1] == kw[a]);
        }
    }
}

/// No keys match the empty keyword prefix.
proof fn lemma_key_set_empty(kw: Seq<char>)
    ensures
        key_set_matches(Seq::<char>::empty(), kw, 0),
{
}

/// The columns' contents, one after another in column order.
pub open spec fn concat_columns(words: Seq<(char, Seq<char>)>) -> Seq<char>
    decreases words.len(),
{
    if words.len() == 0 {
        Seq::empty()
    } else {
        concat_columns(words.drop_last()) + words.last().1
    }
}

/// A columnar transposition cipher: characters are dealt to one column per
/// keyword character, in keyword order; the ciphertext reads the columns in
/// sorted key order.
pub struct Cipher {
    pub keyword: Vec<char>,
    pub position: usize,
    pub words: Vec<(char, Vec<char>)>,
}

impl View for Cipher {
    type V = CipherModel;

    open spec fn view(&self) -> CipherModel {
        CipherModel {
            keyword: self.keyword@,
            position: self.position as int,
            words: Seq::new(self.words@.len(), |j: int| (self.words@[j].0, self.words@[j].1@)),
        }
    }
}

/// Two columns never share a key, so a key names its column uniquely.
proof fn lemma_key_index_unique(m: CipherModel, j: int, k: char)
    requires
        m.well_formed(),
        0 <= j < m.words.len(),
        m.words[j].0 == k,
    ensures
        m.index_of_key(k) == j,
{
    let j2 = m.index_of_key(k);
    assert(0 <= j2 < m.words.len() && m.words[j2].0 == k);
    if j < j2 {
        assert(m.words[j].0 < m.words[j2].0);
    } else if j2 < j {
        assert(m.words[j2].0 < m.words[j].0);
    }
}

impl Cipher {
    /// An empty cipher over `keyword`: one empty column per distinct
    /// keyword character.
    #[verifier::rlimit(80)]
    pub fn new(keyword: String) -> (r: Cipher)
        ensures
            r@.well_formed(),
            r@.keyword == keyword@,
            r@.position == 0,
            forall|j: int| 0 <= j < r@.words.len() ==> (#[trigger] r@.words[j]).1 == Seq::<
                char,
            >::empty(),
    {
        let kw = string_chars(&keyword);
        let mut words: Vec<(char, Vec<char>)> = Vec::new();
        let mut i: usize = 0;
        proof {
            lemma_key_set_empty(keyword@);
            assert(words@ =~= Seq::<(char, Vec<char>)>::empty());
            assert(keys_of(words@) =~= Seq::<char>::empty());
        }
        while i < kw.len()
            invariant
                kw@ == keyword@,
                i <= kw@.len(),
                forall|a: int, b: int|
                    0 <= a < b < words@.len() ==> (#[trigger] words@[a]).0 < (
                    #[trigger] words@[b]).0,
                key_set_matches(keys_of(words@), keyword@, i as int),
                forall|j: int| 0 <= j < words@.len() ==> (#[trigger] words@[j]).1@ == Seq::<
                    char,
                >::empty(),
            decreases kw@.len() - i,
        {
            let c = kw[i];
            let ghost before = words@;
            insert_column(&mut words, c);
            proof {
                lemma_key_set_step(keys_of(before), keys_of(words@), keyword@, i as int);
            }
            i = i + 1;
        }
        let r = Cipher { keyword: kw, position: 0, words };
        proof {
            assert(keys_of(r@.words) =~= keys_of(words@));
        }
        r
    }

    #[verifier::rlimit(80)]
    pub fn add_char(&mut self, c: char)
        requires
            old(self)@.well_formed(),
            old(self)@.keyword.len() >= 1,
            old(self).position < usize::MAX,
        ensures
            final(self)@.well_formed(),
            final(self)@ == old(self)@.after_add(c),
    {
        let klen = self.keyword.len();
        let current_char = self.keyword[self.position % klen];
        proof {
            assert(current_char == self@.current_key());
        }
        let mut j: usize = 0;
        let n = self.words.len();
        while j < n
            invariant
                self@ == old(self)@,
                self@.well_formed(),
                self@.keyword.len() >= 1,
                self.position < usize::MAX,
                current_char == self@.current_key(),
                n == self.words@.len(),
                j <= n,
                forall|a: int| 0 <= a < j ==> (#[trigger] self.words@[a]).0 != current_char,
            decreases n - j,
        {
            if self.words[j].0 == current_char {
                let ghost pre = self@;
                let (key, mut col) = self.words.remove(j);
                col.push(c);
                self.words.insert(j, (key, col));
                self.position = self.position + 1;
                proof {
                    lemma_key_index_unique(pre, j as int, current_char);
                    assert(self@.words =~= pre.words.update(
                        j as int,
                        (current_char, pre.words[j as int].1.push(c)),
                    ));
                    assert(self@ == pre.after_add(c));
                    assert(keys_of(self@.words) =~= keys_of(pre.words));
                }
                return ;
            }
            j = j + 1;
        }
        proof {
            let pos = self.position as int % self@.keyword.len() as int;
            vstd::arithmetic::div_mod::lemma_mod_bound(self.position as int, self@.keyword.len() as int);
            lemma_column_exists(
                keys_of(self@.words),
                self@.keyword,
                self@.keyword.len() as int,
                pos,
            );
            let b = choose|b: int|
                0 <= b < keys_of(self@.words).len() && #[trigger] keys_of(self@.words)[b]
                    == self@.keyword[pos];
            assert(self@.words[b].0 == current_char);
            assert(false);
        }
    }

    /// Feed a whole string, character by character.
    #[verifier::rlimit(80)]
    pub fn write_str(&mut self, s: &str)
        requires
            old(self)@.well_formed(),
            old(self)@.keyword.len() >= 1,
            old(self).position + s@.len() <= usize::MAX,
        ensures
            final(self)@.well_formed(),
            final(self)@ == old(self)@.after_write(s@),
    {
        let ghost pre = self@;
        let n = s.unicode_len();
        let mut i: usize = 0;
        proof {
            assert(pre.after_write(s@.take(0)) == pre) by {
                assert(s@.take(0).len() == 0);
            }
        }
        while i < n
            invariant
                n == s@.len(),
                i <= n,
                self@.well_formed(),
                self@ == pre.after_write(s@.take(i as int)),
                self@.keyword == pre.keyword,
                pre.keyword.len() >= 1,
                self@.position == pre.position + i,
                self@.position + (n - i) <= usize::MAX,
            decreases n - i,
        {
            let c = s.get_char(i);
            self.add_char(c);
            proof {
                assert(s@.take(i + 1).drop_last() =~= s@.take(i as int));
                assert(s@.take(i + 1).last() == s@[i as int]);
            }
            i = i + 1;
        }
        proof {
            assert(s@.take(n as int) =~= s@);
        }
    }

    /// The ciphertext: the columns read out in sorted key order.
    pub fn encrypt(self) -> (r: String)
        ensures
            r@ == concat_columns(self@.words),
    {
        let ghost m = self@;
        let mut out: Vec<char> = Vec::new();
        let n = self.words.len();
        let mut j: usize = 0;
        proof {
            assert(m.words.take(0) =~= Seq::<(char, Seq<char>)>::empty());
        }
        while j < n
            invariant
                n == self.words@.len(),
                j <= n,
                m == self@,
                out@ == concat_columns(m.words.take(j as int)),
            decreases n - j,
        {
            let col_len = self.words[j].1.len();
            let mut t: usize = 0;
            while t < col_len
                invariant
                    j < n,
                    n == self.words@.len(),
                    m == self@,
                    col_len == self.words@[j as int].1@.len(),
                    t <= col_len,
                    out@ == concat_columns(m.words.take(j as int)) + m.words[j as int].1.take(
                        t as int,
                    ),
                decreases col_len - t,
            {
                out.push(self.words[j].1[t]);
                proof {
                    assert(m.words[j as int].1.take(t + 1) =~= m.words[j as int].1.take(
                        t as int,
                    ).push(m.words[j as int].1[t as int]));
                }
                t = t + 1;
            }
            proof {
                assert(m.words[j as int].1.take(col_len as int) =~= m.words[j as int].1);
                assert(m.words.take(j + 1).drop_last() =~= m.words.take(j as int));
                assert(m.words.take(j + 1).last() == m.words[j as int]);
            }
            j = j + 1;
        }
        proof {
            assert(m.words.take(n as int) =~= m.words);
        }
        chars_to_string(out)
    }

    /// The plaintext: read characters back in feeding order until a column
    /// runs out.
    #[verifier::rlimit(50)]
    pub fn decrypt(self) -> (r: String)
        requires
            self@.well_formed(),
            self@.keyword.len() >= 1,
            max_column(self@) * self@.keyword.len() + self@.keyword.len() < usize::MAX,
        ensures
            forall|i: int| 0 <= i < r@.len() ==> self@.read_at(i) == Some(r@[i]),
            self@.read_at(r@.len() as int) is None,
    {
        let ghost m = self@;
        let mut iterator = CipherIterator::new(self);
        let mut out: Vec<char> = Vec::new();
        loop
            invariant
                m == self@,
                iterator.cipher@ == m,
                m.well_formed(),
                m.keyword.len() >= 1,
                max_column(m) * m.keyword.len() + m.keyword.len() < usize::MAX,
                iterator.position == out@.len(),
                iterator.position <= max_column(m) * m.keyword.len() + m.keyword.len(),
                forall|i: int| 0 <= i < out@.len() ==> m.read_at(i) == Some(out@[i]),
            decreases max_column(m) * m.keyword.len() + m.keyword.len() - iterator.position,
        {
            proof {
                if iterator.position as int == max_column(m) * m.keyword.len() + m.keyword.len() {
                    lemma_read_past_end(m, iterator.position as int);
                }
            }
            match iterator.next() {
                Some(c) => {
                    out.push(c);
                    proof {
                        lemma_read_in_range(m, iterator.position as int - 1);
                    }
                },
                None => {
                    return chars_to_string(out);
                },
            }
        }
    }
}

/// The longest column's length.
pub open spec fn max_column(m: CipherModel) -> int
    decreases m.words.len(),
{
    if m.words.len() == 0 {
        0
    } else {
        let rest = max_column(CipherModel { words: m.words.drop_last(), ..m });
        if m.words.last().1.len() > rest {
            m.words.last().1.len() as int
        } else {
            rest
        }
    }
}

/// The longest column is at least as long as any column, and never negative.
proof fn lemma_max_column_bounds(m: CipherModel, j: int)
    requires
        0 <= j < m.words.len(),
    ensures
        m.words[j].1.len() <= max_column(m),
        max_column(m) >= 0,
    decreases m.words.len(),
{
    if j == m.words.len() - 1 {
        if m.words.len() > 1 {
            lemma_max_column_bounds(CipherModel { words: m.words.drop_last(), ..m }, 0);
        }
    } else {
        lemma_max_column_bounds(CipherModel { words: m.words.drop_last(), ..m }, j);
        assert(m.words.drop_last()[j] == m.words[j]);
    }
}

/// A successful read keeps the position under the bound that ends the walk.
proof fn lemma_read_in_range(m: CipherModel, pos: int)
    requires
        m.keyword.len() >= 1,
        0 <= pos,
        m.read_at(pos) is Some,
    ensures
        pos + 1 <= max_column(m) * m.keyword.len() + m.keyword.len(),
{
    let klen = m.keyword.len() as int;
    let k = m.keyword[pos % klen];
    let j = m.index_of_key(k);
    assert(pos / klen < m.words[j].1.len());
    lemma_max_column_bounds(m, j);
    vstd::arithmetic::div_mod::lemma_fundamental_div_mod(pos, klen);
    vstd::arithmetic::div_mod::lemma_mod_bound(pos, klen);
    assert(klen * (pos / klen) <= klen * (max_column(m) - 1)) by (nonlinear_arith)
        requires
            pos / klen <= max_column(m) - 1,
            klen >= 1,
    ;
    assert(klen * (max_column(m) - 1) == max_column(m) * klen - klen) by (nonlinear_arith);
}

/// Past the last full row of every column nothing can be read.
proof fn lemma_read_past_end(m: CipherModel, pos: int)
    requires
        m.keyword.len() >= 1,
        pos >= max_column(m) * m.keyword.len() + m.keyword.len(),
    ensures
        m.read_at(pos) is None,
{
    let klen = m.keyword.len() as int;
    let k = m.keyword[pos % klen];
    let j = m.index_of_key(k);
    if 0 <= j < m.words.len() && m.words[j].0 == k {
        lemma_max_column_bounds(m, j);
        vstd::arithmetic::div_mod::lemma_fundamental_div_mod(pos, klen);
        vstd::arithmetic::div_mod::lemma_mod_bound(pos, klen);
        assert(pos / klen >= max_column(m)) by (nonlinear_arith)
            requires
                pos == klen * (pos / klen) + pos % klen,
                pos % klen < klen,
                pos >= max_column(m) * klen + klen,
                klen >= 1,
        ;
    }
}

/// Walks a cipher's columns in feeding order, handing out one character per
/// step until the current column has run dry.
pub struct CipherIterator {
    pub cipher: Cipher,
    pub position: usize,
}

impl CipherIterator {
    pub fn new(cipher: Cipher) -> (r: CipherIterator)
        ensures
            r.cipher == cipher,
            r.position == 0,
    {
        CipherIterator { cipher, position: 0 }
    }

    /// The character at the walk's position, advancing the walk; `None`
    /// once the column that position falls in is exhausted.
    pub fn next(&mut self) -> (r: Option<char>)
        requires
            old(self).cipher@.well_formed(),
            old(self).cipher@.keyword.len() >= 1,
            old(self).position < usize::MAX,
        ensures
            final(self).cipher == old(self).cipher,
            final(self).position == old(self).position + 1,
            r == old(self).cipher@.read_at(old(self).position as int),
    {
        let ghost m = self.cipher@;
        let klen = self.cipher.keyword.len();
        let current_char = self.cipher.keyword[self.position % klen];
        let row = self.position / klen;
        let mut j: usize = 0;
        let n = self.cipher.words.len();
        let mut ans: Option<char> = None;
        let mut found = false;
        while j < n
            invariant
                n == self.cipher.words@.len(),
                j <= n,
                m == self.cipher@,
                m.well_formed(),
                m.keyword.len() >= 1,
                self.position == old(self).position,
                current_char == m.keyword[self.position as int % m.keyword.len() as int],
                row == self.position as int / m.keyword.len() as int,
                !found ==> forall|a: int| 0 <= a < j ==> (#[trigger] m.words[a]).0 != current_char,
                found ==> ans == m.read_at(self.position as int),
            decreases n - j,
        {
            if !found && self.cipher.words[j].0 == current_char {
                proof {
                    lemma_key_index_unique(m, j as int, current_char);
                }
                if row < self.cipher.words[j].1.len() {
                    ans = Some(self.cipher.words[j].1[row]);
                } else {
                    ans = None;
                }
                found = true;
            }
            j = j + 1;
        }
        proof {
            if !found {
                let pos = self.position as int % m.keyword.len() as int;
                vstd::arithmetic::div_mod::lemma_mod_bound(self.position as int, m.keyword.len() as int);
                lemma_column_exists(keys_of(m.words), m.keyword, m.keyword.len() as int, pos);
                let b = choose|b: int|
                    0 <= b < keys_of(m.words).len() && #[trigger] keys_of(m.words)[b] == m.keyword[
                    pos];
                assert(m.words[b].0 == current_char);
                assert(false);
            }
        }
        self.position = self.position + 1;
        ans
    }
}

/// Insert an empty column for `c` into the sorted column list, in place,
/// unless one is already there.
/// What inserting a fresh column at its sorted place does to the list.
#[verifier::spinoff_prover]
#[verifier::rlimit(100)]
proof fn lemma_insert_column(
    pre: Seq<(char, Vec<char>)>,
    post: Seq<(char, Vec<char>)>,
    j: int,
    c: char,
    elt: (char, Vec<char>),
)
    requires
        forall|a: int, b: int|
            0 <= a < b < pre.len() ==> (#[trigger] pre[a]).0 < (#[trigger] pre[b]).0,
        0 <= j <= pre.len(),
        forall|a: int| 0 <= a < j ==> (#[trigger] pre[a]).0 < c,
        j < pre.len() ==> c < pre[j].0,
        elt.0 == c,
        elt.1@ == Seq::<char>::empty(),
        post == pre.insert(j, elt),
    ensures
        forall|a: int, b: int|
            0 <= a < b < post.len() ==> (#[trigger] post[a]).0 < (#[trigger] post[b]).0,
        exists|j2: int| 0 <= j2 < keys_of(post).len() && #[trigger] keys_of(post)[j2] == c,
        forall|j2: int|
            0 <= j2 < keys_of(post).len() ==> (#[trigger] keys_of(post)[j2] == c || exists|a: int|
                0 <= a < keys_of(pre).len() && #[trigger] keys_of(pre)[a] == keys_of(post)[j2]),
        forall|a: int|
            0 <= a < keys_of(pre).len() ==> exists|j2: int|
                0 <= j2 < keys_of(post).len() && #[trigger] keys_of(post)[j2]
                    == #[trigger] keys_of(pre)[a],
        forall|j2: int|
            0 <= j2 < post.len() ==> ((#[trigger] post[j2]).1@ == Seq::<char>::empty() || exists|
                a: int|
                0 <= a < pre.len() && #[trigger] pre[a] == post[j2]),
{
    pre.insert_ensures(j, elt);
    assert(post[j].0 == c);
    assert forall|a: int, b: int|
        0 <= a < b < post.len() implies (#[trigger] post[a]).0 < (#[trigger] post[b]).0 by {
        if b < j {
        } else if b == j {
            assert(post[a] == pre[a] && pre[a].0 < c);
        } else if a == j {
            assert(post[b] == pre[b - 1]);
            if b - 1 > j {
                assert(pre[j].0 < pre[b - 1].0);
            }
        } else if a < j {
            assert(post[a] == pre[a] && post[b] == pre[b - 1]);
            if a == b - 1 {
                assert(pre[a].0 < c && c < pre[a].0);
            }
        } else {
            assert(post[a] == pre[a - 1] && post[b] == pre[b - 1]);
        }
    }
    assert(keys_of(post)[j] == c);
    assert forall|j2: int|
        0 <= j2 < keys_of(post).len() implies (#[trigger] keys_of(post)[j2] == c || exists|a: int|
        0 <= a < keys_of(pre).len() && #[trigger] keys_of(pre)[a] == keys_of(post)[j2]) by {
        if j2 < j {
            assert(keys_of(pre)[j2] == pre[j2].0 && pre[j2].0 == post[j2].0);
        } else if j2 > j {
            assert(keys_of(pre)[j2 - 1] == pre[j2 - 1].0 && pre[j2 - 1].0 == post[j2].0);
        }
    }
    assert forall|a: int| 0 <= a < keys_of(pre).len() implies exists|j2: int|
        0 <= j2 < keys_of(post).len() && #[trigger] keys_of(post)[j2] == #[trigger] keys_of(
            pre,
        )[a] by {
        if a < j {
            assert(keys_of(post)[a] == post[a].0 && post[a].0 == pre[a].0);
        } else {
            assert(keys_of(post)[a + 1] == post[a + 1].0 && post[a + 1].0 == pre[a].0);
        }
    }
    assert forall|j2: int| 0 <= j2 < post.len() implies ((#[trigger] post[j2]).1@ == Seq::<
        char,
    >::empty() || exists|a: int| 0 <= a < pre.len() && #[trigger] pre[a] == post[j2]) by {
        if j2 < j {
            assert(pre[j2] == post[j2]);
        } else if j2 > j {
            assert(pre[j2 - 1] == post[j2]);
        } else {
            assert(post[j2].1@ == Seq::<char>::empty());
        }
    }
}

/// Insert an empty column for `c` into the sorted column list, in place,
/// unless one is already there.
#[verifier::spinoff_prover]
fn insert_column(words: &mut Vec<(char, Vec<char>)>, c: char)
    requires
        forall|a: int, b: int|
            0 <= a < b < old(words)@.len() ==> (#[trigger] old(words)@[a]).0 < (#[trigger] old(
                words,
            )@[b]).0,
    ensures
        forall|a: int, b: int|
            0 <= a < b < final(words)@.len() ==> (#[trigger] final(words)@[a]).0 < (
            #[trigger] final(words)@[b]).0,
        exists|j: int|
            0 <= j < keys_of(final(words)@).len() && #[trigger] keys_of(final(words)@)[j] == c,
        forall|j: int|
            0 <= j < keys_of(final(words)@).len() ==> (#[trigger] keys_of(final(words)@)[j] == c
                || exists|a: int|
                0 <= a < keys_of(old(words)@).len() && #[trigger] keys_of(old(words)@)[a]
                == keys_of(final(words)@)[j]),
        forall|a: int|
            0 <= a < keys_of(old(words)@).len() ==> exists|j: int|
                0 <= j < keys_of(final(words)@).len() && #[trigger] keys_of(final(words)@)[j]
                    == #[trigger] keys_of(old(words)@)[a],
        forall|j: int|
            0 <= j < final(words)@.len() ==> ((#[trigger] final(words)@[j]).1@ == Seq::<
                char,
            >::empty() || exists|a: int|
                0 <= a < old(words)@.len() && #[trigger] old(words)@[a] == final(words)@[j]),
{
    let ghost pre = words@;
    let n = words.len();
    let mut j: usize = 0;
    while j < n && words[j].0 < c
        invariant
            n == words@.len(),
            words@ == pre,
            j <= n,
            forall|a: int| 0 <= a < j ==> (#[trigger] words@[a]).0 < c,
        decreases n - j,
    {
        j = j + 1;
    }
    if j < n && words[j].0 == c {
        proof {
            assert(keys_of(words@)[j as int] == c);
            assert forall|j2: int|
                0 <= j2 < keys_of(words@).len() implies (#[trigger] keys_of(words@)[j2] == c
                || exists|a: int|
                0 <= a < keys_of(pre).len() && #[trigger] keys_of(pre)[a] == keys_of(
                    words@,
                )[j2]) by {
                assert(keys_of(pre)[j2] == keys_of(words@)[j2]);
            }
            assert forall|a: int| 0 <= a < keys_of(pre).len() implies exists|j2: int|
                0 <= j2 < keys_of(words@).len() && #[trigger] keys_of(words@)[j2]
                    == #[trigger] keys_of(pre)[a] by {
                assert(keys_of(words@)[a] == keys_of(pre)[a]);
            }
            assert forall|j2: int| 0 <= j2 < words@.len() implies (
            (#[trigger] words@[j2]).1@ == Seq::<char>::empty() || exists|a: int|
                0 <= a < pre.len() && #[trigger] pre[a] == words@[j2]) by {
                assert(pre[j2] == words@[j2]);
            }
        }
        return ;
    }
    let empty_col: Vec<char> = Vec::new();
    words.insert(j, (c, empty_col));
    proof {
        lemma_insert_column(pre, words@, j as int, c, words@[j as int]);
    }
}

/// The characters of a string, in order, as a vector.
fn string_chars(s: &String) -> (r: Vec<char>)
    ensures
        r@ == s@,
{
    let n = s.as_str().unicode_len();
    let mut r: Vec<char> = Vec::new();
    let mut i: usize = 0;
    while i < n
        invariant
            n == s@.len(),
            i <= n,
            r@ == s@.take(i as int),
        decreases n - i,
    {
        r.push(s.as_str().get_char(i));
        proof {
            assert(r@ =~= s@.take(i + 1));
        }
        i = i + 1;
    }
    proof {
        assert(s@.take(n as int) =~= s@);
    }
    r
}

} // verus!
