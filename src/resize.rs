use crate::error::StoreError;
use vstd::prelude::*;

verus! {

/// Whether `c` is an ASCII decimal digit.
pub open spec fn is_digit(c: char) -> bool {
    '0' <= c && c <= '9'
}

/// The numeric value of an ASCII decimal digit.
pub open spec fn digit_value(c: char) -> nat {
    (c as nat - '0' as nat) as nat
}

/// The value of a string of decimal digits, most significant first.
pub open spec fn digits_value(s: Seq<char>) -> nat
    decreases s.len(),
{
    if s.len() == 0 {
        0
    } else {
        digits_value(s.drop_last()) * 10 + digit_value(s.last())
    }
}

/// The text of a number without its optional leading `+`.
pub open spec fn unsigned_digits(s: Seq<char>) -> Seq<char> {
    if s.len() > 0 && s[0] == '+' {
        s.drop_first()
    } else {
        s
    }
}

/// A decimal `u32` as std's `str::parse::<u32>` reads it: an optional `+`,
/// then one or more digits whose value fits in 32 bits.
pub open spec fn parse_u32_spec(s: Seq<char>) -> Option<u32> {
    let d = unsigned_digits(s);
    if d.len() > 0 && (forall|i: int| 0 <= i < d.len() ==> is_digit(#[trigger] d[i]))
        && digits_value(d) <= u32::MAX {
        Some(digits_value(d) as u32)
    } else {
        None
    }
}

/// `i` is the one position of `x` in `s`.
pub open spec fn sole_x_at(s: Seq<char>, i: int) -> bool {
    0 <= i < s.len() && s[i] == 'x' && forall|j: int|
        0 <= j < s.len() && j != i ==> #[trigger] s[j] != 'x'
}

/// Reads a `WIDTHxHEIGHT` directive: exactly one `x`, and at least one side a
/// number; a side that is not a number stands for `0`.
pub open spec fn resize_param_spec(s: Seq<char>) -> Option<(u32, u32)> {
    if exists|i: int| sole_x_at(s, i) {
        let i = choose|i: int| sole_x_at(s, i);
        let w = parse_u32_spec(s.subrange(0, i));
        let h = parse_u32_spec(s.subrange(i + 1, s.len() as int));
        match (w, h) {
            (Some(w), Some(h)) => Some((w, h)),
            (Some(w), None) => Some((w, 0u32)),
            (None, Some(h)) => Some((0u32, h)),
            (None, None) => None,
        }
    } else {
        None
    }
}

/// Reads the characters `s[from..to]` as a decimal `u32`, as `str::parse`
/// does.
fn parse_u32_range(s: &str, from: usize, to: usize) -> (r: Option<u32>)
    requires
        from <= to <= s@.len(),
    ensures
        r == parse_u32_spec(s@.subrange(from as int, to as int)),
{
    let ghost t = s@.subrange(from as int, to as int);
    let mut start = from;
    if from < to && s.get_char(from) == '+' {
        start = from + 1;
    }
    let ghost d = s@.subrange(start as int, to as int);
    assert(d == unsigned_digits(t)) by {
        if t.len() > 0 && t[0] == '+' {
            assert(d =~= t.drop_first());
        } else {
            assert(d =~= t);
        }
    }
    if start == to {
        return None;
    }
    let mut value: u32 = 0;
    let mut i = start;
    while i < to
        invariant
            start <= i <= to <= s@.len(),
            d == s@.subrange(start as int, to as int),
            d == unsigned_digits(t),
            t == s@.subrange(from as int, to as int),
            d.len() > 0,
            forall|k: int| start <= k < i ==> is_digit(#[trigger] s@[k]),
            value as nat == digits_value(s@.subrange(start as int, i as int)),
        decreases to - i,
    {
        let c = s.get_char(i);
        assert(s@.subrange(start as int, i as int + 1).drop_last() =~= s@.subrange(
            start as int,
            i as int,
        ));
        if !('0' <= c && c <= '9') {
            assert(d[i - start] == c);
            return None;
        }
        let dv = (c as u32) - ('0' as u32);
        if value > u32::MAX / 10 || (value == u32::MAX / 10 && dv > u32::MAX % 10) {
            proof {
                let p = s@.subrange(start as int, i as int + 1);
                assert(digits_value(p) == value as nat * 10 + digit_value(c));
                assert(digits_value(p) > u32::MAX) by (nonlinear_arith)
                    requires
                        digits_value(p) == value as nat * 10 + digit_value(c),
                        value > u32::MAX / 10 || (value == u32::MAX / 10 && digit_value(c) > u32::MAX % 10),
                ;
                assert(d.subrange(0, (i + 1 - start) as int) =~= p);
                if forall|m: int| 0 <= m < d.len() ==> is_digit(#[trigger] d[m]) {
                    lemma_digits_value_prefix_bound(d, (i + 1 - start) as int);
                }
            }
            return None;
        }
        value = value * 10 + dv;
        i = i + 1;
    }
    assert(s@.subrange(start as int, i as int) =~= d);
    Some(value)
}

/// A prefix of digits never has a greater value than the whole.
proof fn lemma_digits_value_prefix_bound(d: Seq<char>, n: int)
    requires
        0 <= n <= d.len(),
        forall|i: int| 0 <= i < d.len() ==> is_digit(#[trigger] d[i]),
    ensures
        digits_value(d.subrange(0, n)) <= digits_value(d),
    decreases d.len(),
{
    if n < d.len() {
        assert(d.drop_last().subrange(0, n) =~= d.subrange(0, n));
        lemma_digits_value_prefix_bound(d.drop_last(), n);
    } else {
        assert(d.subrange(0, n) =~= d);
    }
}

/// Reads a resize directive of the shape `WIDTHxHEIGHT`. A side that is not a
/// number counts as `0`; a directive without exactly one `x`, or with no number
/// on either side, asks for no resize (`None`).
pub fn parse_resize_param(param: &str) -> (r: Option<(u32, u32)>)
    ensures
        r == resize_param_spec(param@),
{
    let n = param.unicode_len();
    let mut count: usize = 0;
    let mut pos: usize = 0;
    let mut i: usize = 0;
    while i < n
        invariant
            n == param@.len(),
            i <= n,
            count <= i,
            count == 0 ==> forall|j: int| 0 <= j < i ==> #[trigger] param@[j] != 'x',
            count >= 1 ==> pos < i && param@[pos as int] == 'x' && forall|j: int|
                0 <= j < pos ==> #[trigger] param@[j] != 'x',
            count == 1 ==> forall|j: int|
                0 <= j < i && j != pos ==> #[trigger] param@[j] != 'x',
            count >= 2 ==> exists|j: int| 0 <= j < i && j != pos && #[trigger] param@[j] == 'x',
        decreases n - i,
    {
        if param.get_char(i) == 'x' {
            if count == 0 {
                pos = i;
            }
            count = count + 1;
        }
        i = i + 1;
    }
    if count != 1 {
        proof {
            if exists|k: int| sole_x_at(param@, k) {
                let k = choose|k: int| sole_x_at(param@, k);
                if count >= 2 {
                    let j = choose|j: int| 0 <= j < n && j != pos && #[trigger] param@[j] == 'x';
                    assert(param@[pos as int] == 'x');
                }
                else {
                    assert(param@[k] == 'x');
                }
            }
        }
        return None;
    }
    proof {
        assert(sole_x_at(param@, pos as int));
        let k = choose|k: int| sole_x_at(param@, k);
        assert(k == pos);
    }
    let w = parse_u32_range(param, 0, pos);
    let h = parse_u32_range(param, pos + 1, n);
    match (w, h) {
        (Some(w), Some(h)) => Some((w, h)),
        (Some(w), None) => Some((w, 0)),
        (None, Some(h)) => Some((0, h)),
        (None, None) => None,
    }
}

/// The side that keeps the source's aspect ratio when the other side is
/// `other`: `other * src_side / src_other`, rounded down, at least `1` and at
/// most `u32::MAX`.
pub open spec fn scaled_side(other: u32, src_side: u32, src_other: u32) -> u32 {
    if src_other == 0 {
        1
    } else {
        let v = (other as int * src_side as int) / src_other as int;
        if v < 1 {
            1
        } else if v > u32::MAX {
            u32::MAX
        } else {
            v as u32
        }
    }
}

/// The size to scale a `src_w`×`src_h` image to for a requested `w`×`h`,
/// where `0` marks a side left open.
pub open spec fn target_dimensions_spec(w: u32, h: u32, src_w: u32, src_h: u32) -> (u32, u32) {
    if w != 0 && h != 0 {
        (w, h)
    } else if w == 0 && h != 0 {
        (scaled_side(h, src_w, src_h), h)
    } else if w != 0 && h == 0 {
        (w, scaled_side(w, src_h, src_w))
    } else {
        (src_w, src_h)
    }
}

fn scaled_side_exec(other: u32, src_side: u32, src_other: u32) -> (r: u32)
    ensures
        r == scaled_side(other, src_side, src_other),
{
    if src_other == 0 {
        return 1;
    }
    proof {
        assert((other as int) * (src_side as int) <= u32::MAX as int * u32::MAX as int) by (nonlinear_arith)
            requires
                other <= u32::MAX,
                src_side <= u32::MAX,
        ;
    }
    let v: u64 = (other as u64) * (src_side as u64) / (src_other as u64);
    if v < 1 {
        1
    } else if v > u32::MAX as u64 {
        u32::MAX
    } else {
        v as u32
    }
}

/// A side computed from the aspect ratio keeps it: where no clamping takes
/// place, `side * src_other <= other * src_side < (side + 1) * src_other`.
pub proof fn lemma_scaled_side_keeps_ratio(other: u32, src_side: u32, src_other: u32)
    requires
        src_other > 0,
        1 <= (other as int * src_side as int) / src_other as int <= u32::MAX,
    ensures
        ({
            let side = scaled_side(other, src_side, src_other) as int;
            &&& side * src_other <= (other as int) * (src_side as int)
            &&& (other as int) * (src_side as int) < (side + 1) * src_other
        }),
{
    let p = other as int * src_side as int;
    let d = src_other as int;
    let side = p / d;
    assert(side * d <= p && p < (side + 1) * d) by (nonlinear_arith)
        requires
            d > 0,
            side == p / d,
    ;
}

/// The size an image of `src_w`×`src_h` is scaled to for a requested
/// `w`×`h`. Two explicit sides are taken as they are, whatever the source's
/// aspect ratio. With one side `0` it is computed from the source's aspect
/// ratio so that the given side matches exactly. With both `0` the source size
/// is kept.
pub fn target_dimensions(w: u32, h: u32, src_w: u32, src_h: u32) -> (r: (u32, u32))
    ensures
        r == target_dimensions_spec(w, h, src_w, src_h),
        w != 0 && h != 0 ==> r == (w, h),
        w == 0 && h != 0 ==> r.1 == h && r.0 == scaled_side(h, src_w, src_h),
        w != 0 && h == 0 ==> r.0 == w && r.1 == scaled_side(w, src_h, src_w),
{
    if w != 0 && h != 0 {
        (w, h)
    } else if w == 0 && h != 0 {
        (scaled_side_exec(h, src_w, src_h), h)
    } else if w != 0 && h == 0 {
        (w, scaled_side_exec(w, src_h, src_w))
    } else {
        (src_w, src_h)
    }
}

/// The width and height of the image `data` encodes, as the `image` crate
/// decodes it; `None` where it decodes no image.
pub uninterp spec fn decoded_size(data: Seq<u8>) -> Option<(u32, u32)>;

/// The JPEG that the `image` crate makes of the image `data` encodes, scaled
/// to `w`×`h`; `None` where decoding or encoding fails.
pub uninterp spec fn resized_jpeg(data: Seq<u8>, w: u32, h: u32) -> Option<Seq<u8>>;

/// Relies on `image::load_from_memory` and `DynamicImage::width` / `height`:
/// the format is guessed from the bytes and the image decoded, a function of
/// the bytes alone.
#[verifier::external_body]
fn image_size(data: &[u8]) -> (r: Option<(u32, u32)>)
    ensures
        r == decoded_size(data@),
{
    match image::load_from_memory(data) {
        Ok(img) => Some((img.width(), img.height())),
        Err(_) => None,
    }
}

/// Relies on `image::load_from_memory`, `DynamicImage::resize_exact` with
/// nearest-neighbour sampling, and `DynamicImage::write_to` with JPEG at
/// quality 90: the bytes depend on the arguments alone.
#[verifier::external_body]
fn jpeg_resized(data: &[u8], w: u32, h: u32) -> (r: Option<Vec<u8>>)
    ensures
        match r {
            Some(b) => resized_jpeg(data@, w, h) == Some(b@),
            None => resized_jpeg(data@, w, h) is None,
        },
{
    let img = match image::load_from_memory(data) {
        Ok(img) => img,
        Err(_) => return None,
    };
    let scaled = img.resize_exact(w, h, image::imageops::FilterType::Nearest);
    let mut out: Vec<u8> = Vec::new();
    match scaled.write_to(&mut std::io::Cursor::new(&mut out), image::ImageOutputFormat::Jpeg(90)) {
        Ok(()) => Some(out),
        Err(_) => None,
    }
}

/// What [`resize_image`] returns for `data` and a requested `w`×`h`.
pub open spec fn resize_image_spec(data: Seq<u8>, w: u32, h: u32) -> Option<Seq<u8>> {
    match decoded_size(data) {
        None => None,
        Some((sw, sh)) => {
            let (tw, th) = target_dimensions_spec(w, h, sw, sh);
            resized_jpeg(data, tw, th)
        },
    }
}

/// Decodes `data` as an image, scales it for the requested `w`×`h` (see
/// [`target_dimensions`]) and re-encodes it as JPEG. A payload that is not a decodable image, or an image that
/// cannot be encoded, is a `DecodeError`.
pub fn resize_image(data: &[u8], w: u32, h: u32) -> (r: Result<Vec<u8>, StoreError>)
    ensures
        match resize_image_spec(data@, w, h) {
            Some(b) => r is Ok && r->Ok_0@ == b,
            None => r == Err::<Vec<u8>, StoreError>(StoreError::DecodeError),
        },
        decoded_size(data@) is None ==> r == Err::<Vec<u8>, StoreError>(StoreError::DecodeError),
{
    let (sw, sh) = match image_size(data) {
        Some(size) => size,
        None => return Err(StoreError::DecodeError),
    };
    let (tw, th) = target_dimensions(w, h, sw, sh);
    match jpeg_resized(data, tw, th) {
        Some(bytes) => Ok(bytes),
        None => Err(StoreError::DecodeError),
    }
}

/// Position of the last `c` in `s[0..end]`, or `-1` where there is none.
pub open spec fn last_index_before(s: Seq<char>, c: char, end: int) -> int
    decreases end,
{
    if end <= 0 {
        -1
    } else if s[end - 1] == c {
        end - 1
    } else {
        last_index_before(s, c, end - 1)
    }
}

/// Position of the first `c` in `s` at or after `from`, or `s.len()` where
/// there is none.
pub open spec fn first_index_from(s: Seq<char>, c: char, from: int) -> int
    decreases s.len() - from,
{
    if from >= s.len() {
        s.len() as int
    } else if s[from] == c {
        from
    } else {
        first_index_from(s, c, from + 1)
    }
}

/// The key and value of one `key=value` segment of a query string: the text
/// before the first `=`, and the text after it up to the next `=`. A segment
/// without `=` has none.
pub open spec fn segment_pair(seg: Seq<char>) -> Option<(Seq<char>, Seq<char>)> {
    let e = first_index_from(seg, '=', 0);
    if e >= seg.len() {
        None
    } else {
        let f = first_index_from(seg, '=', e + 1);
        Some((seg.subrange(0, e), seg.subrange(e + 1, f)))
    }
}

/// The value of `key` among the `&`-separated segments of `q[0..end]`; where
/// the key comes more than once the last one counts.
pub open spec fn query_lookup(q: Seq<char>, key: Seq<char>, end: int) -> Option<Seq<char>>
    decreases end + 1,
{
    if end < 0 {
        None
    } else {
        let j = last_index_before(q, '&', end);
        let seg = q.subrange(j + 1, end);
        match segment_pair(seg) {
            Some((k, v)) if k == key => Some(v),
            _ => if 0 <= j < end {
                query_lookup(q, key, j)
            } else {
                None
            },
        }
    }
}

proof fn lemma_last_index_bounds(s: Seq<char>, c: char, end: int)
    requires
        0 <= end <= s.len(),
    ensures
        -1 <= last_index_before(s, c, end) < end,
        last_index_before(s, c, end) >= 0 ==> s[last_index_before(s, c, end)] == c,
        forall|k: int| last_index_before(s, c, end) < k < end ==> s[k] != c,
    decreases end,
{
    if end > 0 && s[end - 1] != c {
        lemma_last_index_bounds(s, c, end - 1);
    }
}

proof fn lemma_first_index_bounds(s: Seq<char>, c: char, from: int)
    requires
        0 <= from <= s.len(),
    ensures
        from <= first_index_from(s, c, from) <= s.len(),
        first_index_from(s, c, from) < s.len() ==> s[first_index_from(s, c, from)] == c,
        forall|k: int| from <= k < first_index_from(s, c, from) ==> s[k] != c,
    decreases s.len() - from,
{
    if from < s.len() && s[from] != c {
        lemma_first_index_bounds(s, c, from + 1);
    }
}

fn last_index_exec(q: &str, c: char, end: usize) -> (r: Option<usize>)
    requires
        end <= q@.len(),
    ensures
        match r {
            Some(j) => j as int == last_index_before(q@, c, end as int),
            None => last_index_before(q@, c, end as int) == -1,
        },
{
    let mut k = end;
    while k > 0
        invariant
            k <= end <= q@.len(),
            last_index_before(q@, c, k as int) == last_index_before(q@, c, end as int),
        decreases k,
    {
        if q.get_char(k - 1) == c {
            return Some(k - 1);
        }
        k = k - 1;
    }
    None
}

fn first_index_exec(q: &str, c: char, from: usize, end: usize) -> (r: usize)
    requires
        from <= end <= q@.len(),
    ensures
        r as int == first_index_from(q@.subrange(0, end as int), c, from as int),
{
    let ghost t = q@.subrange(0, end as int);
    let mut k = from;
    while k < end
        invariant
            from <= k <= end <= q@.len(),
            t == q@.subrange(0, end as int),
            first_index_from(t, c, k as int) == first_index_from(t, c, from as int),
        decreases end - k,
    {
        if q.get_char(k) == c {
            return k;
        }
        k = k + 1;
    }
    k
}

fn range_equals(q: &str, from: usize, to: usize, key: &str) -> (r: bool)
    requires
        from <= to <= q@.len(),
    ensures
        r == (q@.subrange(from as int, to as int) == key@),
{
    let n = key.unicode_len();
    if to - from != n {
        return false;
    }
    let mut k: usize = 0;
    while k < n
        invariant
            n == key@.len(),
            to - from == n,
            from <= to <= q@.len(),
            k <= n,
            forall|m: int| 0 <= m < k ==> q@[from + m] == key@[m],
        decreases n - k,
    {
        if q.get_char(from + k) != key.get_char(k) {
            assert(q@.subrange(from as int, to as int)[k as int] != key@[k as int]);
            return false;
        }
        k = k + 1;
    }
    assert(q@.subrange(from as int, to as int) =~= key@);
    true
}

/// The value of `key` in a query string of `&`-separated `key=value`
/// segments. A segment without `=` is skipped, a value ends at the next `=`,
/// and of repeated keys the last one counts.
pub fn query_param(query: &str, key: &str) -> (r: Option<String>)
    ensures
        match r {
            Some(v) => query_lookup(query@, key@, query@.len() as int) == Some(v@),
            None => query_lookup(query@, key@, query@.len() as int) is None,
        },
{
    let ghost q = query@;
    let mut end = query.unicode_len();
    loop
        invariant
            end <= q.len(),
            q == query@,
            query_lookup(q, key@, end as int) == query_lookup(q, key@, q.len() as int),
        decreases end,
    {
        let j = last_index_exec(query, '&', end);
        proof {
            lemma_last_index_bounds(q, '&', end as int);
        }
        let start: usize = match j {
            Some(j) => j + 1,
            None => 0,
        };
        let ghost seg = q.subrange(start as int, end as int);
        let e = first_index_exec(query, '=', start, end);
        proof {
            lemma_first_index_bounds(q.subrange(0, end as int), '=', start as int);
            lemma_first_index_shift(q, start as int, end as int, start as int);
        }
        if e < end {
            let f = first_index_exec(query, '=', e + 1, end);
            proof {
                lemma_first_index_bounds(q.subrange(0, end as int), '=', e + 1);
                lemma_first_index_shift(q, start as int, end as int, e + 1);
                assert(seg.subrange(0, e - start) =~= q.subrange(start as int, e as int));
                assert(seg.subrange(e + 1 - start, f - start) =~= q.subrange(e + 1, f as int));
            }
            if range_equals(query, start, e, key) {
                let v = query.substring_char(e + 1, f);
                return Some(String::from_str(v));
            }
        }
        match j {
            Some(j) => {
                end = j;
            },
            None => {
                return None;
            },
        }
    }
}

proof fn lemma_first_index_shift(q: Seq<char>, start: int, end: int, from: int)
    requires
        0 <= start <= from <= end <= q.len(),
    ensures
        first_index_from(q.subrange(0, end), '=', from) - start == first_index_from(
            q.subrange(start, end),
            '=',
            from - start,
        ),
    decreases end - from,
{
    if from < end {
        lemma_first_index_shift(q, start, end, from + 1);
    }
}

} // verus!
