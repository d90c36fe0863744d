//! The asset relocator: the name under which a local file is kept in the
//! managed assets directory.
//!
//! A file is kept under its sanitized base name, with the stem cut to a
//! bounded length. Where that name is taken, a tag of eight hexadecimal
//! digits, derived from the text of the source path, is put behind the stem.

use crate::sanitize::{all_safe, is_safe};
use crate::text::{append, chars_of, slice_of, string_of};
use std::hash::DefaultHasher;
use std::hash::Hasher;
use vstd::prelude::*;
use vstd::std_specs::hash::DefaultHasherAdditionalSpecFns;
use vstd::utf8::encode_utf8;

verus! {

/// The greatest number of characters kept of a stem.
pub const MAX_STEM: usize = 100;

/// The number of characters of a tag.
pub const TAG_LEN: usize = 8;

/// The index of the last `.` before `to`, or -1 where there is none.
pub open spec fn last_dot(name: Seq<char>, to: int) -> int
    decreases to,
{
    if to <= 0 || to > name.len() {
        -1
    } else if name[to - 1] == '.' {
        to - 1
    } else {
        last_dot(name, to - 1)
    }
}

/// The names that stand for a directory and so have neither stem nor
/// extension of their own: the empty name, `.` and `..`.
pub open spec fn names_no_file(name: Seq<char>) -> bool {
    name.len() == 0 || name == seq!['.'] || name == seq!['.', '.']
}

/// The stem of a file name: the name up to its last `.`, or the whole name
/// where it has no `.` or only the one it begins with. A name that stands for
/// a directory has the stem `file`.
pub open spec fn stem_of(name: Seq<char>) -> Seq<char> {
    if names_no_file(name) {
        "file"@
    } else if last_dot(name, name.len() as int) <= 0 {
        name
    } else {
        name.take(last_dot(name, name.len() as int))
    }
}

/// The extension of a file name: what follows its last `.`, or nothing where
/// the name has no `.` or only the one it begins with.
pub open spec fn extension_of(name: Seq<char>) -> Seq<char> {
    if names_no_file(name) || last_dot(name, name.len() as int) <= 0 {
        Seq::<char>::empty()
    } else {
        name.skip(last_dot(name, name.len() as int) + 1)
    }
}

/// The stem as it is kept: at most `MAX_STEM` characters of it.
pub open spec fn short_stem(name: Seq<char>) -> Seq<char> {
    if stem_of(name).len() > MAX_STEM {
        stem_of(name).take(MAX_STEM as int)
    } else {
        stem_of(name)
    }
}

/// A stem with an extension behind it, if there is one.
pub open spec fn with_extension(stem: Seq<char>, ext: Seq<char>) -> Seq<char> {
    if ext.len() == 0 {
        stem
    } else {
        stem + seq!['.'] + ext
    }
}

/// The name a file is kept under where that name is free.
pub open spec fn plain_name(name: Seq<char>) -> Seq<char> {
    with_extension(short_stem(name), extension_of(name))
}

/// The name a file is kept under where the plain name is taken.
pub open spec fn tagged_name(name: Seq<char>, tag: Seq<char>) -> Seq<char> {
    with_extension(short_stem(name) + seq!['-'] + tag, extension_of(name))
}

/// 16 to the power of `k`.
pub open spec fn pow16(k: nat) -> nat
    decreases k,
{
    if k == 0 {
        1
    } else {
        16 * pow16((k - 1) as nat)
    }
}

/// The lower-case hexadecimal digit for a value below 16.
pub open spec fn hex_digit(d: nat) -> char {
    if d < 10 {
        (('0' as u8) + d) as char
    } else {
        (('a' as u8) + d - 10) as char
    }
}

/// The characters `0` to `9` and `a` to `f`.
pub open spec fn is_hex_digit(c: char) -> bool {
    ('0' <= c && c <= '9') || ('a' <= c && c <= 'f')
}

/// The number written by the eight leading hexadecimal digits of `n`: `n`
/// itself where it has at most eight digits.
pub open spec fn leading_digits(n: nat) -> nat
    decreases n,
{
    if n < 0x1_0000_0000 {
        n
    } else {
        leading_digits(n / 16)
    }
}

/// The tag for a hash value: its eight leading hexadecimal digits in lower
/// case, with zeros in front where the value has fewer than eight.
pub open spec fn tag_of(hash: u64) -> Seq<char> {
    Seq::new(
        TAG_LEN as nat,
        |i: int| hex_digit((leading_digits(hash as nat) / pow16((7 - i) as nat)) % 16),
    )
}

/// The hash of a source path: that of the standard library's default hasher,
/// fed the UTF-8 bytes of the path's text in one piece.
pub open spec fn digest_of(source: Seq<char>) -> u64 {
    DefaultHasher::spec_finish(seq![encode_utf8(source)])
}

/// The name under which the file at `source`, with the sanitized base name
/// `name`, is kept: the plain name where that is free, else the name tagged
/// by the source path.
pub open spec fn destination_name(name: Seq<char>, source: Seq<char>, taken: bool) -> Seq<char> {
    if taken {
        tagged_name(name, tag_of(digest_of(source)))
    } else {
        plain_name(name)
    }
}

/// The name chosen for a file when the directory holds the names `present`.
pub open spec fn chosen_name(present: Set<Seq<char>>, name: Seq<char>, source: Seq<char>) -> Seq<
    char,
> {
    destination_name(name, source, present.contains(plain_name(name)))
}

/// The names in the directory after the file was copied there.
pub open spec fn after_copy(present: Set<Seq<char>>, name: Seq<char>, source: Seq<char>) -> Set<
    Seq<char>,
> {
    present.insert(chosen_name(present, name, source))
}

/// The powers of 16 that a tag is made with.
pub proof fn lemma_pow16()
    ensures
        pow16(0) == 1,
        pow16(1) == 0x10,
        pow16(2) == 0x100,
        pow16(3) == 0x1000,
        pow16(4) == 0x1_0000,
        pow16(5) == 0x10_0000,
        pow16(6) == 0x100_0000,
        pow16(7) == 0x1000_0000,
{
    reveal_with_fuel(pow16, 9);
}

/// `last_dot` gives the place of a dot with no dot after it.
pub proof fn lemma_last_dot_bounds(name: Seq<char>, to: int)
    requires
        0 <= to <= name.len(),
    ensures
        -1 <= last_dot(name, to) < to,
        last_dot(name, to) >= 0 ==> name[last_dot(name, to)] == '.',
        forall|k: int| last_dot(name, to) < k < to ==> #[trigger] name[k] != '.',
    decreases to,
{
    if to > 0 && name[to - 1] != '.' {
        lemma_last_dot_bounds(name, to - 1);
    }
}

/// A tag is eight lower-case hexadecimal digits.
pub proof fn lemma_tag_of(hash: u64)
    ensures
        tag_of(hash).len() == TAG_LEN,
        forall|i: int| 0 <= i < TAG_LEN ==> is_hex_digit(#[trigger] tag_of(hash)[i]),
        all_safe(tag_of(hash)),
{
    assert forall|i: int| 0 <= i < TAG_LEN implies is_hex_digit(#[trigger] tag_of(hash)[i])
        && is_safe(tag_of(hash)[i]) by {
        let d = (leading_digits(hash as nat) / pow16((7 - i) as nat)) % 16;
        assert(0 <= d < 16);
        assert(tag_of(hash)[i] == hex_digit(d));
    }
}

/// Stem and extension of a safe name are safe, and so are the names made of
/// them; the stem is never longer than the bound.
pub proof fn lemma_names_are_safe(name: Seq<char>, tag: Seq<char>)
    requires
        all_safe(name),
        all_safe(tag),
    ensures
        all_safe(short_stem(name)),
        short_stem(name).len() <= MAX_STEM,
        all_safe(extension_of(name)),
        all_safe(plain_name(name)),
        all_safe(tagged_name(name, tag)),
{
    reveal_strlit("file");
    lemma_last_dot_bounds(name, name.len() as int);
    assert(all_safe(stem_of(name)));
    assert(all_safe(short_stem(name)));
    assert(all_safe(extension_of(name)));
}

/// The tagged name is longer than the plain name by the tag and its hyphen,
/// so the two are never the same name.
pub proof fn lemma_tagged_name_is_longer(name: Seq<char>, tag: Seq<char>)
    ensures
        tagged_name(name, tag).len() == plain_name(name).len() + 1 + tag.len(),
        tagged_name(name, tag) != plain_name(name),
{
    let stem = short_stem(name);
    let ext = extension_of(name);
    assert((stem + seq!['-'] + tag).len() == stem.len() + 1 + tag.len());
    if ext.len() > 0 {
        assert((stem + seq!['.'] + ext).len() == stem.len() + 1 + ext.len());
        assert((stem + seq!['-'] + tag + seq!['.'] + ext).len() == stem.len() + tag.len() + 2
            + ext.len());
    }
}

/// Two files with the same base name, copied one after the other into a
/// directory where that name was free, are kept under different names: the
/// first under the plain name, the second under a tagged one.
pub proof fn lemma_colliding_files_get_distinct_names(
    present: Set<Seq<char>>,
    name: Seq<char>,
    first: Seq<char>,
    second: Seq<char>,
)
    requires
        !present.contains(plain_name(name)),
    ensures
        chosen_name(present, name, first) == plain_name(name),
        chosen_name(after_copy(present, name, first), name, second) == tagged_name(
            name,
            tag_of(digest_of(second)),
        ),
        chosen_name(present, name, first) != chosen_name(
            after_copy(present, name, first),
            name,
            second,
        ),
{
    lemma_tagged_name_is_longer(name, tag_of(digest_of(second)));
}

/// In a directory that holds the plain name already, the same source is kept
/// under the same name however often it is copied, and copying it again adds
/// no name.
pub proof fn lemma_repeated_copy_is_stable(
    present: Set<Seq<char>>,
    name: Seq<char>,
    source: Seq<char>,
)
    requires
        present.contains(plain_name(name)),
    ensures
        chosen_name(after_copy(present, name, source), name, source) == chosen_name(
            present,
            name,
            source,
        ),
        after_copy(after_copy(present, name, source), name, source) == after_copy(
            present,
            name,
            source,
        ),
{
    let once = after_copy(present, name, source);
    assert(once.contains(plain_name(name)));
    assert(once.insert(chosen_name(once, name, source)) =~= once);
}

/// From the second copy on the name no longer changes, whatever the
/// directory held at first.
pub proof fn lemma_second_copy_settles_the_name(
    present: Set<Seq<char>>,
    name: Seq<char>,
    source: Seq<char>,
)
    ensures
        ({
            let once = after_copy(present, name, source);
            let twice = after_copy(once, name, source);
            chosen_name(twice, name, source) == chosen_name(once, name, source)
        }),
{
    let once = after_copy(present, name, source);
    if present.contains(plain_name(name)) {
        lemma_repeated_copy_is_stable(present, name, source);
    } else {
        assert(once.contains(plain_name(name)));
        lemma_repeated_copy_is_stable(once, name, source);
    }
}

pub(crate) fn hex_char(d: u8) -> (c: char)
    requires
        d < 16,
    ensures
        c == hex_digit(d as nat),
        is_hex_digit(c),
{
    if d < 10 {
        (48u8 + d) as char
    } else {
        (87u8 + d) as char
    }
}

/// The tag for a hash value.
pub fn tag(hash: u64) -> (r: Vec<char>)
    ensures
        r@ == tag_of(hash),
        r@.len() == TAG_LEN,
{
    let mut n: u64 = hash;
    while n >= 0x1_0000_0000
        invariant
            leading_digits(hash as nat) == leading_digits(n as nat),
        decreases n,
    {
        n = n / 16;
    }
    let mut r: Vec<char> = Vec::new();
    let mut div: u64 = 0x1000_0000;
    let mut i: usize = 0;
    proof {
        lemma_pow16();
    }
    while i < 8
        invariant
            i <= 8,
            n == leading_digits(hash as nat),
            i < 8 ==> div == pow16((7 - i) as nat),
            i < 8 ==> div > 0,
            r@ == tag_of(hash).take(i as int),
        decreases 8 - i,
    {
        let d: u64 = (n / div) % 16;
        let c = hex_char(d as u8);
        r.push(c);
        proof {
            assert(tag_of(hash)[i as int] == c);
            assert(tag_of(hash).take(i + 1) =~= tag_of(hash).take(i as int).push(c));
            if i < 7 {
                assert(pow16((7 - i) as nat) == 16 * pow16((6 - i) as nat));
            }
        }
        i += 1;
        if i < 8 {
            div = div / 16;
        }
    }
    proof {
        assert(tag_of(hash).take(8) =~= tag_of(hash));
    }
    r
}

/// The hash of a source path.
pub fn digest(source: &str) -> (r: u64)
    ensures
        r == digest_of(source@),
{
    let mut hasher = DefaultHasher::new();
    hasher.write(source.as_bytes());
    hasher.finish()
}

/// Where the last `.` of `name` stands, counted from one: 0 where there is
/// none.
fn dot_position(name: &Vec<char>) -> (r: usize)
    ensures
        r == last_dot(name@, name.len() as int) + 1,
        r <= name.len(),
{
    let mut e: usize = name.len();
    while e > 0 && name[e - 1] != '.'
        invariant
            e <= name.len(),
            last_dot(name@, name.len() as int) == last_dot(name@, e as int),
        decreases e,
    {
        e -= 1;
    }
    e
}

fn directory_name(name: &Vec<char>) -> (b: bool)
    ensures
        b == names_no_file(name@),
{
    let b = name.len() == 0 || (name.len() == 1 && name[0] == '.') || (name.len() == 2 && name[0]
        == '.' && name[1] == '.');
    proof {
        if name.len() == 1 && name[0] == '.' {
            assert(name@ =~= seq!['.']);
        }
        if name.len() == 2 && name[0] == '.' && name[1] == '.' {
            assert(name@ =~= seq!['.', '.']);
        }
        if name@ == seq!['.'] {
            assert(name@[0] == '.');
        }
        if name@ == seq!['.', '.'] {
            assert(name@[0] == '.' && name@[1] == '.');
        }
    }
    b
}

/// Stem, cut to its bound, and extension of a file name.
pub fn split_name(name: &Vec<char>) -> (r: (Vec<char>, Vec<char>))
    ensures
        r.0@ == short_stem(name@),
        r.1@ == extension_of(name@),
{
    let dot = dot_position(name);
    let (stem, ext) = if directory_name(name) {
        (chars_of("file"), Vec::new())
    } else if dot <= 1 {
        (name.clone(), Vec::new())
    } else {
        (slice_of(name, 0, dot - 1), slice_of(name, dot, name.len()))
    };
    proof {
        assert(stem@ =~= stem_of(name@));
        assert(ext@ =~= extension_of(name@));
    }
    if stem.len() > MAX_STEM {
        (slice_of(&stem, 0, MAX_STEM), ext)
    } else {
        (stem, ext)
    }
}

fn attach_extension(stem: Vec<char>, ext: &Vec<char>) -> (r: Vec<char>)
    ensures
        r@ == with_extension(stem@, ext@),
{
    let mut r = stem;
    if ext.len() > 0 {
        r.push('.');
        append(&mut r, ext);
    }
    r
}

/// The name under which the file at `source` is kept, given its sanitized
/// base name and whether the plain name is taken in the directory.
pub fn destination_file_name(name: &str, source: &str, taken: bool) -> (r: String)
    ensures
        r@ == destination_name(name@, source@, taken),
{
    let chars = chars_of(name);
    let (stem, ext) = split_name(&chars);
    let mut stem = stem;
    if taken {
        stem.push('-');
        let t = tag(digest(source));
        append(&mut stem, &t);
    }
    let r = attach_extension(stem, &ext);
    string_of(&r)
}

} // verus!
