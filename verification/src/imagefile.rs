use vstd::prelude::*;
use vstd::string::StrSliceExecFns;
use vstd::string::StringSliceAdditionalSpecFns;
use vstd::utf8::{encode_utf8, encode_utf8_decode_utf8};

verus! {

/// The lower-case form that the standard library gives of a text.
pub uninterp spec fn lowercase_of(text: Seq<char>) -> Seq<char>;

/// The lower-case form of `text`, by `str::to_lowercase`. Trusted: the
/// result is that function's, `lowercase_of`.
#[verifier::external_body]
fn lowercase(text: &str) -> (lower: String)
    ensures
        lower@ == lowercase_of(text@),
{
    text.to_lowercase()
}

/// The position of the last full stop before `end`; -1 where there is none.
pub open spec fn last_dot(name: Seq<char>, end: int) -> int
    decreases end,
{
    if end <= 0 {
        -1
    } else if name[end - 1] == '.' {
        end - 1
    } else {
        last_dot(name, end - 1)
    }
}

/// The extension of a file name: what follows its last full stop, but for a
/// full stop that is the first character.
pub open spec fn extension(name: Seq<char>) -> Option<Seq<char>> {
    let dot = last_dot(name, name.len() as int);
    if dot > 0 {
        Some(name.subrange(dot + 1, name.len() as int))
    } else {
        None
    }
}

/// The lower-case extensions of the files that count as images.
pub open spec fn is_image_extension(lower: Seq<char>) -> bool {
    ||| lower == "jpg"@
    ||| lower == "jpeg"@
    ||| lower == "png"@
    ||| lower == "bmp"@
    ||| lower == "tiff"@
    ||| lower == "webp"@
}

/// The file name has the extension of an image, in upper or lower case.
pub open spec fn image_name(name: Seq<char>) -> bool {
    match extension(name) {
        Some(ext) => is_image_extension(lowercase_of(ext)),
        None => false,
    }
}

/// `a` comes before `b` in the order of strings: at the first byte in which
/// they differ `a` has the smaller one, or `a` ends there and `b` goes on.
pub open spec fn bytes_before(a: Seq<u8>, b: Seq<u8>) -> bool
    decreases a.len(),
{
    if b.len() == 0 {
        false
    } else if a.len() == 0 {
        true
    } else {
        a[0] < b[0] || (a[0] == b[0] && bytes_before(a.drop_first(), b.drop_first()))
    }
}

/// The text `a` comes before the text `b` in the order of strings.
pub open spec fn name_before(a: Seq<char>, b: Seq<char>) -> bool {
    bytes_before(encode_utf8(a), encode_utf8(b))
}

/// Some name of `list` has the text `text`.
pub open spec fn holds(list: Seq<String>, text: Seq<char>) -> bool {
    exists|i: int| 0 <= i < list.len() && (#[trigger] list[i])@ == text
}

/// Of two different byte strings one comes before the other.
pub proof fn lemma_before_total(a: Seq<u8>, b: Seq<u8>)
    ensures
        bytes_before(a, b) || bytes_before(b, a) || a == b,
        !(bytes_before(a, b) && bytes_before(b, a)),
    decreases a.len(),
{
    if a.len() == 0 || b.len() == 0 {
        if a.len() == 0 && b.len() == 0 {
            assert(a =~= b);
        }
    } else {
        lemma_before_total(a.drop_first(), b.drop_first());
        if a[0] == b[0] && a.drop_first() == b.drop_first() {
            assert(a =~= seq![a[0]] + a.drop_first());
            assert(b =~= seq![b[0]] + b.drop_first());
        }
    }
}

/// Nothing comes before itself, so a list in which each name comes before
/// the next holds no name twice.
pub proof fn lemma_before_irreflexive(a: Seq<u8>)
    ensures
        !bytes_before(a, a),
    decreases a.len(),
{
    if a.len() > 0 {
        lemma_before_irreflexive(a.drop_first());
    }
}

/// What comes before something that comes before a third comes before the
/// third.
pub proof fn lemma_before_trans(a: Seq<u8>, b: Seq<u8>, c: Seq<u8>)
    requires
        bytes_before(a, b),
        bytes_before(b, c),
    ensures
        bytes_before(a, c),
    decreases a.len(),
{
    if a.len() > 0 && a[0] == b[0] && b[0] == c[0] {
        lemma_before_trans(a.drop_first(), b.drop_first(), c.drop_first());
    }
}

/// Whether `a` comes before `b` in the order of strings.
pub fn bytes_less(a: &[u8], b: &[u8]) -> (less: bool)
    ensures
        less == bytes_before(a@, b@),
{
    let mut i: usize = 0;
    proof {
        assert(a@.skip(0) =~= a@);
        assert(b@.skip(0) =~= b@);
    }
    while i < a.len() && i < b.len() && a[i] == b[i]
        invariant
            i <= a@.len(),
            i <= b@.len(),
            bytes_before(a@, b@) == bytes_before(a@.skip(i as int), b@.skip(i as int)),
        decreases a@.len() - i,
    {
        proof {
            assert(a@.skip(i as int)[0] == a@[i as int]);
            assert(b@.skip(i as int)[0] == b@[i as int]);
            assert(a@.skip(i as int).drop_first() =~= a@.skip(i as int + 1));
            assert(b@.skip(i as int).drop_first() =~= b@.skip(i as int + 1));
        }
        i += 1;
    }
    proof {
        if i < a.len() {
            assert(a@.skip(i as int)[0] == a@[i as int]);
        }
        if i < b.len() {
            assert(b@.skip(i as int)[0] == b@[i as int]);
        }
    }
    if i >= b.len() {
        false
    } else if i >= a.len() {
        true
    } else {
        a[i] < b[i]
    }
}

/// Whether the file name has the extension of an image: `jpg`, `jpeg`,
/// `png`, `bmp`, `tiff` or `webp`, in upper or lower case.
pub fn is_image_name(name: &str) -> (image: bool)
    ensures
        image == image_name(name@),
{
    let len = name.unicode_len();
    let mut end = len;
    while end > 0 && name.get_char(end - 1) != '.'
        invariant
            end <= len,
            len == name@.len(),
            last_dot(name@, len as int) == last_dot(name@, end as int),
        decreases end,
    {
        end -= 1;
    }
    if end <= 1 {
        return false;
    }
    let ext = name.substring_char(end, len);
    let lower = lowercase(ext);
    matches_image_extension(&lower)
}

/// Whether `lower` is one of the lower-case extensions of images: `jpg`,
/// `jpeg`, `png`, `bmp`, `tiff`, `webp`.
pub fn matches_image_extension(lower: &String) -> (image: bool)
    ensures
        image == is_image_extension(lower@),
{
    *lower == "jpg".to_owned() || *lower == "jpeg".to_owned() || *lower == "png".to_owned()
        || *lower == "bmp".to_owned() || *lower == "tiff".to_owned() || *lower
        == "webp".to_owned()
}

/// The names among `names` that are names of images, each once, in the
/// order of strings.
pub fn collect_basenames(names: &Vec<String>) -> (basenames: Vec<String>)
    ensures
        forall|i: int, j: int|
            0 <= i < j < basenames@.len() ==> name_before(
                (#[trigger] basenames@[i])@,
                (#[trigger] basenames@[j])@,
            ),
        forall|i: int, j: int|
            0 <= i < j < basenames@.len() ==> (#[trigger] basenames@[i])@ != (
            #[trigger] basenames@[j])@,
        forall|i: int|
            0 <= i < basenames@.len() ==> image_name((#[trigger] basenames@[i])@) && holds(
                names@,
                basenames@[i]@,
            ),
        forall|k: int|
            0 <= k < names@.len() && image_name((#[trigger] names@[k])@) ==> holds(
                basenames@,
                names@[k]@,
            ),
{
    let mut basenames: Vec<String> = Vec::new();
    let mut k: usize = 0;
    while k < names.len()
        invariant
            k <= names@.len(),
            forall|i: int, j: int|
                0 <= i < j < basenames@.len() ==> name_before(
                    (#[trigger] basenames@[i])@,
                    (#[trigger] basenames@[j])@,
                ),
            forall|i: int|
                0 <= i < basenames@.len() ==> image_name((#[trigger] basenames@[i])@) && holds(
                    names@,
                    basenames@[i]@,
                ),
            forall|m: int|
                0 <= m < k && image_name((#[trigger] names@[m])@) ==> holds(
                    basenames@,
                    names@[m]@,
                ),
        decreases names@.len() - k,
    {
        let name = &names[k];
        let ghost before = basenames@;
        if is_image_name(name.as_str()) {
            insert_name(&mut basenames, name);
        }
        proof {
            assert forall|m: int|
                0 <= m < k + 1 && image_name((#[trigger] names@[m])@) implies holds(
                basenames@,
                names@[m]@,
            ) by {
                if m < k {
                    let at = choose|i: int| 0 <= i < before.len() && (#[trigger] before[i])@
                        == names@[m]@;
                    assert(holds(before, before[at]@));
                }
            }
            assert forall|i: int| 0 <= i < basenames@.len() implies image_name(
                (#[trigger] basenames@[i])@,
            ) && holds(names@, basenames@[i]@) by {
                if holds(before, basenames@[i]@) {
                    let at = choose|j: int| 0 <= j < before.len() && (#[trigger] before[j])@
                        == basenames@[i]@;
                } else {
                    assert(names@[k as int]@ == basenames@[i]@);
                }
            }
        }
        k += 1;
    }
    proof {
        assert forall|i: int, j: int| 0 <= i < j < basenames@.len() implies (
        #[trigger] basenames@[i])@ != (#[trigger] basenames@[j])@ by {
            lemma_before_irreflexive(encode_utf8(basenames@[i]@));
        }
    }
    basenames
}

/// Puts `name` at its place in `sorted`, unless a name with the same text
/// is there.
pub fn insert_name(sorted: &mut Vec<String>, name: &String)
    requires
        forall|i: int, j: int|
            0 <= i < j < old(sorted)@.len() ==> name_before(
                (#[trigger] old(sorted)@[i])@,
                (#[trigger] old(sorted)@[j])@,
            ),
    ensures
        forall|i: int, j: int|
            0 <= i < j < final(sorted)@.len() ==> name_before(
                (#[trigger] final(sorted)@[i])@,
                (#[trigger] final(sorted)@[j])@,
            ),
        holds(final(sorted)@, name@),
        forall|text: Seq<char>| holds(old(sorted)@, text) ==> holds(final(sorted)@, text),
        forall|i: int|
            0 <= i < final(sorted)@.len() ==> (#[trigger] final(sorted)@[i])@ == name@ || holds(
                old(sorted)@,
                final(sorted)@[i]@,
            ),
{
    let ghost before = sorted@;
    let mut at: usize = 0;
    while at < sorted.len() && bytes_less(sorted[at].as_str().as_bytes(), name.as_str().as_bytes())
        invariant
            at <= sorted@.len(),
            sorted@ == before,
            forall|i: int| 0 <= i < at ==> name_before((#[trigger] before[i])@, name@),
        decreases sorted@.len() - at,
    {
        at += 1;
    }
    if at < sorted.len() && sorted[at] == *name {
        assert(holds(sorted@, name@));
        assert forall|i: int| 0 <= i < sorted@.len() implies (#[trigger] sorted@[i])@ == name@
            || holds(before, sorted@[i]@) by {
            assert(before[i]@ == sorted@[i]@);
        }
        return ;
    }
    sorted.insert(at, name.clone());
    proof {
        let after = sorted@;
        assert(after[at as int]@ == name@);
        assert(holds(after, name@));
        assert forall|text: Seq<char>| holds(before, text) implies holds(after, text) by {
            let i = choose|i: int| 0 <= i < before.len() && (#[trigger] before[i])@ == text;
            if i < at {
                assert(after[i]@ == text);
            } else {
                assert(after[i + 1]@ == text);
            }
        }
        assert forall|i: int| 0 <= i < after.len() implies (#[trigger] after[i])@ == name@
            || holds(before, after[i]@) by {
            if i < at {
                assert(before[i]@ == after[i]@);
            } else if i > at {
                assert(before[i - 1]@ == after[i]@);
            }
        }
        assert forall|i: int, j: int| 0 <= i < j < after.len() implies name_before(
            (#[trigger] after[i])@,
            (#[trigger] after[j])@,
        ) by {
            if j < at {
                assert(after[i] == before[i] && after[j] == before[j]);
            } else if i > at {
                assert(after[i] == before[i - 1] && after[j] == before[j - 1]);
            } else if j == at {
                assert(after[i] == before[i]);
            } else if i == at {
                // the name that stood at `at` does not come before `name` and is not `name`
                let next = before[at as int];
                lemma_before_total(encode_utf8(next@), encode_utf8(name@));
                if encode_utf8(next@) == encode_utf8(name@) {
                    encode_utf8_decode_utf8(next@);
                    encode_utf8_decode_utf8(name@);
                }
                assert(name_before(name@, next@));
                if j > at + 1 {
                    assert(after[j] == before[j - 1]);
                    lemma_before_trans(
                        encode_utf8(name@),
                        encode_utf8(next@),
                        encode_utf8(before[j - 1]@),
                    );
                } else {
                    assert(after[j] == next);
                }
            } else {
                assert(after[i] == before[i] && after[j] == before[j - 1]);
            }
        }
    }
}

} // verus!
