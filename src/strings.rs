//! Functions that own, borrow and build strings.
use vstd::prelude::*;
use vstd::utf8::encode_utf8;

verus! {

/// An owned string handed to the caller, in place of a reference to a
/// local that would dangle.
pub fn return_a_string() -> (r: String)
    ensures
        r@ == "Hello world"@,
{
    String::from_str("Hello world")
}

/// The words joined by `sep`.
pub open spec fn joined(words: Seq<Seq<char>>, sep: Seq<char>) -> Seq<char>
    decreases words.len(),
{
    if words.len() == 0 {
        Seq::empty()
    } else if words.len() == 1 {
        words[0]
    } else {
        joined(words.drop_last(), sep) + sep + words.last()
    }
}

pub open spec fn texts(v: Seq<String>) -> Seq<Seq<char>> {
    v.map_values(|s: String| s@)
}

/// The name with the title "Esq." appended, words separated by spaces.
/// The caller's list is only read.
pub fn stringify_name_with_title(name: &Vec<String>) -> (r: String)
    ensures
        r@ == joined(texts(name@).push("Esq."@), " "@),
{
    let ghost words = texts(name@).push("Esq."@);
    let mut full = String::new();
    let mut k: usize = 0;
    while k < name.len()
        invariant
            k <= name.len(),
            words == texts(name@).push("Esq."@),
            full@ == joined(words.take(k as int), " "@),
        decreases name.len() - k,
    {
        proof {
            assert(words.take(k + 1).drop_last() =~= words.take(k as int));
        }
        if k > 0 {
            full.append(" ");
        }
        full.append(name[k].as_str());
        proof {
            assert(words[k as int] == name@[k as int]@);
            if k == 0 {
                assert(full@ =~= joined(words.take(1), " "@));
            } else {
                assert(full@ =~= joined(words.take(k + 1), " "@));
            }
        }
        k = k + 1;
    }
    proof {
        assert(words.take(k + 1).drop_last() =~= words.take(k as int));
    }
    if k > 0 {
        full.append(" ");
    }
    full.append("Esq.");
    proof {
        assert(words.take(k + 1) =~= words);
        assert(full@ =~= joined(words, " "@));
    }
    full
}

/// The length of a string in bytes.
pub open spec fn byte_len(s: String) -> nat {
    encode_utf8(s@).len()
}

/// The length in bytes of the longest string of the list (0 for none).
pub open spec fn longest(v: Seq<String>) -> nat
    decreases v.len(),
{
    if v.len() == 0 {
        0
    } else {
        let m = longest(v.drop_last());
        if byte_len(v.last()) > m {
            byte_len(v.last())
        } else {
            m
        }
    }
}

/// The strings of `src` longer than `bound` bytes, in order.
pub open spec fn longer_than(src: Seq<String>, bound: nat) -> Seq<String>
    decreases src.len(),
{
    if src.len() == 0 {
        Seq::empty()
    } else {
        let r = longer_than(src.drop_last(), bound);
        if byte_len(src.last()) > bound {
            r.push(src.last())
        } else {
            r
        }
    }
}

/// Appends to `dst` a copy of each string of `src` that is longer than the
/// longest string `dst` held at the start.
pub fn add_big_strings(dst: &mut Vec<String>, src: &[String])
    requires
        old(dst).len() > 0,
    ensures
        final(dst)@ == old(dst)@ + longer_than(src@, longest(old(dst)@)),
{
    let ghost d0 = dst@;
    let mut largest_len: usize = 0;
    let mut k: usize = 0;
    while k < dst.len()
        invariant
            dst@ == d0,
            k <= dst.len(),
            largest_len == longest(d0.take(k as int)),
        decreases dst.len() - k,
    {
        proof {
            assert(d0.take(k + 1).drop_last() =~= d0.take(k as int));
            assert(d0.take(k + 1).last() == d0[k as int]);
        }
        let n = dst[k].as_str().as_bytes().len();
        if n > largest_len {
            largest_len = n;
        }
        k = k + 1;
    }
    proof {
        assert(d0.take(d0.len() as int) =~= d0);
    }
    let mut j: usize = 0;
    while j < src.len()
        invariant
            j <= src.len(),
            largest_len == longest(d0),
            dst@ == d0 + longer_than(src@.take(j as int), largest_len as nat),
        decreases src.len() - j,
    {
        proof {
            assert(src@.take(j + 1).drop_last() =~= src@.take(j as int));
            assert(src@.take(j + 1).last() == src@[j as int]);
        }
        if src[j].as_str().as_bytes().len() > largest_len {
            let copy = src[j].clone();
            dst.push(copy);
            proof {
                assert(dst@ =~= d0 + longer_than(src@.take(j + 1), largest_len as nat));
            }
        }
        j = j + 1;
    }
    proof {
        assert(src@.take(src@.len() as int) =~= src@);
    }
}

/// The name with " Jr." appended; the caller gives up the name.
pub fn add_suffix(name: String) -> (r: String)
    ensures
        r@ == name@ + " Jr."@,
{
    let mut name = name;
    name.append(" Jr.");
    name
}

/// The byte index of the first space, or the length when there is none.
pub open spec fn first_space(bytes: Seq<u8>) -> nat
    decreases bytes.len(),
{
    if bytes.len() == 0 {
        0
    } else if first_space(bytes.drop_last()) < bytes.len() - 1 {
        first_space(bytes.drop_last())
    } else if bytes.last() == 32 {
        (bytes.len() - 1) as nat
    } else {
        bytes.len()
    }
}

/// The byte position where the first word of `s` ends.
pub fn first_word(s: &String) -> (r: usize)
    ensures
        r == first_space(encode_utf8(s@)),
{
    let bytes = s.as_str().as_bytes();
    let ghost b = bytes@;
    let mut i: usize = 0;
    while i < bytes.len()
        invariant
            b == bytes@,
            b == encode_utf8(s@),
            i <= bytes.len(),
            first_space(b.take(i as int)) == i,
        decreases bytes.len() - i,
    {
        proof {
            assert(b.take(i + 1).drop_last() =~= b.take(i as int));
        }
        if bytes[i] == 32u8 {
            proof {
                assert(b.take(i + 1).last() == b[i as int]);
                lemma_first_space_extends(b, i as int);
            }
            return i;
        }
        i = i + 1;
    }
    proof {
        assert(b.take(b.len() as int) =~= b);
    }
    bytes.len()
}

/// Once found, the first space stays first however the bytes go on.
proof fn lemma_first_space_extends(b: Seq<u8>, i: int)
    requires
        0 <= i < b.len(),
        first_space(b.take(i + 1)) == i,
    ensures
        first_space(b) == i,
    decreases b.len(),
{
    if b.len() > i + 1 {
        assert(b.drop_last().take(i + 1) =~= b.take(i + 1));
        lemma_first_space_extends(b.drop_last(), i);
    } else {
        assert(b.take(i + 1) =~= b);
    }
}

/// The index of the first space character, or the length when there is none.
pub open spec fn first_space_char(s: Seq<char>) -> nat
    decreases s.len(),
{
    if s.len() == 0 {
        0
    } else if first_space_char(s.drop_last()) < s.len() - 1 {
        first_space_char(s.drop_last())
    } else if s.last() == ' ' {
        (s.len() - 1) as nat
    } else {
        s.len()
    }
}

proof fn lemma_first_space_char_extends(s: Seq<char>, i: int)
    requires
        0 <= i < s.len(),
        first_space_char(s.take(i + 1)) == i,
    ensures
        first_space_char(s) == i,
    decreases s.len(),
{
    if s.len() > i + 1 {
        assert(s.drop_last().take(i + 1) =~= s.take(i + 1));
        lemma_first_space_char_extends(s.drop_last(), i);
    } else {
        assert(s.take(i + 1) =~= s);
    }
}

/// The first word of `s`, as a slice of it.
pub fn _first_word(s: &String) -> (r: &str)
    ensures
        r@ == s@.subrange(0, first_space_char(s@) as int),
{
    let text = s.as_str();
    let n = text.unicode_len();
    let mut i: usize = 0;
    while i < n
        invariant
            text@ == s@,
            n == s@.len(),
            i <= n,
            first_space_char(s@.take(i as int)) == i,
        decreases n - i,
    {
        proof {
            assert(s@.take(i + 1).drop_last() =~= s@.take(i as int));
        }
        if text.get_char(i) == ' ' {
            proof {
                assert(s@.take(i + 1).last() == s@[i as int]);
                lemma_first_space_char_extends(s@, i as int);
            }
            return text.substring_char(0, i);
        }
        i = i + 1;
    }
    proof {
        assert(s@.take(n as int) =~= s@);
    }
    text.substring_char(0, n)
}

} // verus!
