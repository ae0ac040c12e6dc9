//! Grouping lower-case words that are anagrams of each other.
use vstd::prelude::*;
use vstd::string::StringSliceAdditionalSpecFns;
use vstd::utf8::encode_utf8;

verus! {

/// The longest word, in bytes, that can be grouped.
pub const MAX_WORD_LEN: usize = 100;

/// Why a word could not be grouped.
#[derive(Debug, Clone, Copy, PartialEq, Eq, Structural)]
pub enum InputError {
    /// The word is longer than `MAX_WORD_LEN` bytes.
    StringTooLong(),
    /// The word holds a byte outside `a` to `z`.
    CharOutOfRange(),
}

impl InputError {
    /// A sentence that describes this error.
    pub fn message(&self) -> (r: String)
        ensures
            r@ == match self {
                InputError::StringTooLong() => "input string too long (> 100 chars)"@,
                InputError::CharOutOfRange() => "char out of bounds (not [a-z])"@,
            },
    {
        match self {
            InputError::StringTooLong() => "input string too long (> 100 chars)".to_owned(),
            InputError::CharOutOfRange() => "char out of bounds (not [a-z])".to_owned(),
        }
    }
}

/// How many times byte `x` occurs in `b`.
pub open spec fn byte_count(b: Seq<u8>, x: u8) -> nat
    decreases b.len(),
{
    if b.len() == 0 {
        0
    } else {
        byte_count(b.drop_last(), x) + if b.last() == x {
            1nat
        } else {
            0nat
        }
    }
}

/// Whether every byte of `b` is a lower-case ASCII letter.
pub open spec fn all_lower(b: Seq<u8>) -> bool {
    forall|i: int| 0 <= i < b.len() ==> 97 <= #[trigger] b[i] <= 122
}

/// How often each letter `a` to `z` occurs in `b`.
pub open spec fn letter_counts(b: Seq<u8>) -> Seq<u8> {
    Seq::new(26, |c: int| byte_count(b, (97 + c) as u8) as u8)
}

/// The letter counts of a word, or why the word is refused.
pub open spec fn freq_map_of(b: Seq<u8>) -> Result<Seq<u8>, InputError> {
    if b.len() > MAX_WORD_LEN {
        Err(InputError::StringTooLong())
    } else if !all_lower(b) {
        Err(InputError::CharOutOfRange())
    } else {
        Ok(letter_counts(b))
    }
}

/// The texts of `texts` whose letter counts are `sig`, in order.
pub open spec fn anagram_class(texts: Seq<Seq<char>>, sig: Seq<u8>) -> Seq<Seq<char>>
    decreases texts.len(),
{
    if texts.len() == 0 {
        seq![]
    } else {
        let rest = anagram_class(texts.drop_last(), sig);
        if letter_counts(encode_utf8(texts.last())) == sig {
            rest.push(texts.last())
        } else {
            rest
        }
    }
}

/// Counts the letters of `s`, which must be at most `MAX_WORD_LEN` bytes of
/// `a` to `z`.
pub fn gen_freq_map(s: &str) -> (r: Result<[u8; 26], InputError>)
    ensures
        match r {
            Ok(m) => freq_map_of(s.spec_bytes()) == Ok::<Seq<u8>, InputError>(m@),
            Err(e) => freq_map_of(s.spec_bytes()) == Err::<Seq<u8>, InputError>(e),
        },
{
    let bytes = s.as_bytes();
    let mut map = [0u8; 26];
    if bytes.len() > MAX_WORD_LEN {
        return Err(InputError::StringTooLong());
    }
    let mut i: usize = 0;
    while i < bytes.len()
        invariant
            i <= bytes@.len() <= MAX_WORD_LEN,
            bytes@ == s.spec_bytes(),
            map@.len() == 26,
            all_lower(bytes@.take(i as int)),
            forall|c: int| 0 <= c < 26 ==> map@[c] == byte_count(bytes@.take(i as int), (97 + c) as u8),
            forall|c: int| 0 <= c < 26 ==> map@[c] <= i,
        decreases bytes@.len() - i,
    {
        let b = bytes[i];
        if b < 97 || b > 122 {
            proof {
                assert(!(97 <= bytes@[i as int] <= 122));
                assert(!all_lower(bytes@));
            }
            return Err(InputError::CharOutOfRange());
        }
        let ghost pre = bytes@.take(i as int);
        let ghost post = bytes@.take(i + 1);
        let ghost old_map = map@;
        let idx = (b - 97) as usize;
        let cur = map[idx];
        map[idx] = cur + 1;
        proof {
            assert(post.drop_last() =~= pre);
            assert(post.last() == b);
            assert forall|c: int| 0 <= c < 26 implies map@[c] == byte_count(post, (97 + c) as u8) by {
                if c != idx {
                    assert(map@[c] == old_map[c]);
                }
            }
            assert forall|j: int| 0 <= j < post.len() implies 97 <= #[trigger] post[j] <= 122 by {
                if j < i {
                    assert(post[j] == pre[j]);
                }
            }
        }
        i += 1;
    }
    proof {
        assert(bytes@.take(i as int) =~= bytes@);
        assert(map@ =~= letter_counts(bytes@));
    }
    Ok(map)
}

/// Whether some group's first word has the letter counts `sig`.
pub open spec fn has_group(groups: Seq<Vec<String>>, sig: Seq<u8>) -> bool {
    exists|g: int| 0 <= g < groups.len() && letter_counts(encode_utf8(#[trigger] groups[g]@[0]@)) == sig
}

/// The texts that `v` holds.
pub open spec fn texts_of(v: Seq<String>) -> Seq<Seq<char>> {
    v.map_values(|t: String| t@)
}

/// Whether two letter-count arrays are equal.
fn same_counts(a: &[u8; 26], b: &[u8; 26]) -> (r: bool)
    ensures
        r == (a@ == b@),
{
    let mut c: usize = 0;
    while c < 26
        invariant
            c <= 26,
            a@.len() == 26,
            b@.len() == 26,
            forall|t: int| 0 <= t < c ==> a@[t] == b@[t],
        decreases 26 - c,
    {
        if a[c] != b[c] {
            return false;
        }
        c += 1;
    }
    proof {
        assert(a@ =~= b@);
    }
    true
}

/// A class is empty when no text has its letter counts.
proof fn lemma_class_empty(texts: Seq<Seq<char>>, sig: Seq<u8>)
    requires
        forall|j: int| 0 <= j < texts.len() ==> letter_counts(encode_utf8(#[trigger] texts[j])) != sig,
    ensures
        anagram_class(texts, sig) == Seq::<Seq<char>>::empty(),
    decreases texts.len(),
{
    if texts.len() > 0 {
        let init = texts.drop_last();
        assert forall|j: int| 0 <= j < init.len() implies letter_counts(
            encode_utf8(#[trigger] init[j]),
        ) != sig by {
            assert(init[j] == texts[j]);
        }
        lemma_class_empty(init, sig);
        assert(letter_counts(encode_utf8(texts[texts.len() - 1])) != sig);
        assert(texts.last() == texts[texts.len() - 1]);
    }
}

/// Splits `strs` into groups of anagrams: each group holds, in input order,
/// every word with one letter count, and no two groups share a letter count.
/// Groups come in the order of their first word. Fails with the error of the
/// first word that is too long or holds a byte outside `a` to `z`.
pub fn group_anagrams(strs: Vec<String>) -> (r: Result<Vec<Vec<String>>, InputError>)
    ensures
        match r {
            Err(e) => exists|i: int|
                0 <= i < strs@.len() && (forall|j: int|
                    0 <= j < i ==> freq_map_of(encode_utf8(#[trigger] strs@[j]@)) is Ok)
                    && freq_map_of(encode_utf8(strs@[i]@)) == Err::<Seq<u8>, InputError>(e),
            Ok(groups) => {
                &&& forall|j: int|
                    0 <= j < strs@.len() ==> freq_map_of(encode_utf8(#[trigger] strs@[j]@)) is Ok
                &&& forall|g: int|
                    0 <= g < groups@.len() ==> #[trigger] groups@[g]@.len() > 0
                        && texts_of(groups@[g]@) == anagram_class(
                        texts_of(strs@),
                        letter_counts(encode_utf8(groups@[g]@[0]@)),
                    )
                &&& forall|g: int, h: int|
                    0 <= g < h < groups@.len() ==> letter_counts(encode_utf8(groups@[g]@[0]@))
                        != letter_counts(encode_utf8(groups@[h]@[0]@))
                &&& forall|j: int|
                    0 <= j < strs@.len() ==> has_group(
                        groups@,
                        letter_counts(encode_utf8(#[trigger] strs@[j]@)),
                    )
            },
        },
{
    let ghost texts = texts_of(strs@);
    let mut groups: Vec<Vec<String>> = Vec::new();
    let mut sigs: Vec<[u8; 26]> = Vec::new();
    let ghost mut home: Seq<int> = seq![];
    let mut i: usize = 0;
    while i < strs.len()
        invariant
            i <= strs@.len(),
            texts == texts_of(strs@),
            groups@.len() == sigs@.len(),
            home.len() == i,
            forall|j: int| 0 <= j < i ==> freq_map_of(encode_utf8(#[trigger] strs@[j]@)) is Ok,
            forall|g: int|
                0 <= g < groups@.len() ==> #[trigger] groups@[g]@.len() > 0 && sigs@[g]@
                    == letter_counts(encode_utf8(groups@[g]@[0]@)) && texts_of(groups@[g]@) == anagram_class(texts.take(i as int), sigs@[g]@),
            forall|g: int, h: int| 0 <= g < h < sigs@.len() ==> sigs@[g]@ != sigs@[h]@,
            forall|j: int|
                0 <= j < i ==> 0 <= #[trigger] home[j] < sigs@.len() && sigs@[home[j]]@
                    == letter_counts(encode_utf8(strs@[j]@)),
        decreases strs@.len() - i,
    {
        let m = match gen_freq_map(strs[i].as_str()) {
            Err(e) => {
                proof {
                    assert(freq_map_of(encode_utf8(strs@[i as int]@)) == Err::<Seq<u8>, InputError>(e));
                }
                return Err(e);
            },
            Ok(m) => m,
        };
        let ghost pre = texts.take(i as int);
        let ghost post = texts.take(i + 1);
        let ghost t = strs@[i as int]@;
        proof {
            assert(post.drop_last() =~= pre);
            assert(post.last() == t);
            assert(letter_counts(encode_utf8(t)) == m@);
        }
        let mut g: usize = 0;
        while g < sigs.len() && !same_counts(&sigs[g], &m)
            invariant
                g <= sigs@.len(),
                forall|h: int| 0 <= h < g ==> sigs@[h]@ != m@,
            decreases sigs@.len() - g,
        {
            g += 1;
        }
        let ghost old_groups = groups@;
        let ghost old_sigs = sigs@;
        if g < sigs.len() {
            let mut members = groups.remove(g);
            members.push(strs[i].clone());
            let ghost grown = members;
            groups.insert(g, members);
            proof {
                home = home.push(g as int);
                assert(groups@ =~= old_groups.update(g as int, grown));
                assert forall|k: int| 0 <= k < groups@.len() implies #[trigger] groups@[k]@.len() > 0
                    && sigs@[k]@ == letter_counts(encode_utf8(groups@[k]@[0]@)) && texts_of(groups@[k]@) == anagram_class(texts.take(i + 1), sigs@[k]@) by {
                    if k == g {
                        assert(groups@[k] == grown);
                        assert(grown@ == old_groups[k]@.push(strs@[i as int]));
                        assert(old_groups[k]@.len() > 0);
                        assert(sigs@[k]@ == m@);
                        assert(anagram_class(post, m@) == anagram_class(pre, m@).push(t));
                        assert(grown@[0] == old_groups[k]@[0]);
                        assert(texts_of(grown@) =~= texts_of(old_groups[k]@).push(t));
                    } else {
                        assert(groups@[k] == old_groups[k]);
                        assert(old_groups[k]@.len() > 0);
                        assert(sigs@[k]@ != m@);
                        assert(anagram_class(post, sigs@[k]@) == anagram_class(pre, sigs@[k]@));
                    }
                }
            }
        } else {
            let mut members: Vec<String> = Vec::new();
            members.push(strs[i].clone());
            groups.push(members);
            sigs.push(m);
            proof {
                assert forall|j: int| 0 <= j < pre.len() implies letter_counts(
                    encode_utf8(#[trigger] pre[j]),
                ) != m@ by {
                    assert(pre[j] == strs@[j]@);
                    assert(old_sigs[home[j]]@ != m@);
                }
                lemma_class_empty(pre, m@);
                home = home.push(old_sigs.len() as int);
                assert forall|k: int| 0 <= k < groups@.len() implies #[trigger] groups@[k]@.len() > 0
                    && sigs@[k]@ == letter_counts(encode_utf8(groups@[k]@[0]@)) && texts_of(groups@[k]@) == anagram_class(texts.take(i + 1), sigs@[k]@) by {
                    if k == old_groups.len() {
                        assert(anagram_class(post, m@) == anagram_class(pre, m@).push(t));
                        assert(texts_of(groups@[k]@) =~= seq![t]);
                        assert(anagram_class(pre, m@).push(t) =~= seq![t]);
                    } else {
                        assert(groups@[k] == old_groups[k]);
                        assert(sigs@[k] == old_sigs[k]);
                        assert(old_groups[k]@.len() > 0);
                        assert(sigs@[k]@ != m@);
                        assert(anagram_class(post, sigs@[k]@) == anagram_class(pre, sigs@[k]@));
                    }
                }
            }
        }
        i += 1;
    }
    proof {
        assert(texts.take(i as int) =~= texts);
        assert forall|j: int| 0 <= j < strs@.len() implies has_group(
            groups@,
            letter_counts(encode_utf8(#[trigger] strs@[j]@)),
        ) by {
            let g = home[j];
            assert(0 <= g < groups@.len());
            assert(groups@[g]@.len() > 0);
        }
        assert forall|g: int, h: int| 0 <= g < h < groups@.len() implies letter_counts(
            encode_utf8(groups@[g]@[0]@),
        ) != letter_counts(encode_utf8(groups@[h]@[0]@)) by {
            assert(groups@[g]@.len() > 0);
            assert(groups@[h]@.len() > 0);
        }
        assert forall|g: int| 0 <= g < groups@.len() implies #[trigger] groups@[g]@.len() > 0
            && texts_of(groups@[g]@) == anagram_class(
            texts_of(strs@),
            letter_counts(encode_utf8(groups@[g]@[0]@)),
        ) by {
            assert(groups@[g]@.len() > 0);
            assert(sigs@[g]@ == letter_counts(encode_utf8(groups@[g]@[0]@)));
        }
        assert(forall|j: int|
            0 <= j < strs@.len() ==> freq_map_of(encode_utf8(#[trigger] strs@[j]@)) is Ok);
    }
    Ok(groups)
}

} // verus!
