//! Finding where a bencoded value ends, without decoding it.

use vstd::prelude::*;

verus! {

/// Opens a dictionary.
pub const DICT: u8 = 0x64;

/// Opens a list.
pub const LIST: u8 = 0x6c;

/// Opens an integer.
pub const INTEGER: u8 = 0x69;

/// Closes a dictionary, a list or an integer.
pub const END: u8 = 0x65;

/// Stands between the length and the content of a byte string.
pub const COLON: u8 = 0x3a;

/// Whether `b` is an ASCII digit.
pub open spec fn is_digit(b: u8) -> bool {
    0x30 <= b <= 0x39
}

/// Whether every byte of `s` is an ASCII digit.
pub open spec fn all_digits(s: Seq<u8>) -> bool {
    forall|i: int| 0 <= i < s.len() ==> is_digit(#[trigger] s[i])
}

/// The number that the ASCII digits of `s` write.
pub open spec fn number(s: Seq<u8>) -> nat
    decreases s.len(),
{
    if s.len() == 0 {
        0
    } else {
        number(s.drop_last()) * 10 + (s.last() - 0x30) as nat
    }
}

/// The position of the first `b` at or after `from`.
pub open spec fn first(data: Seq<u8>, from: int, b: u8) -> Option<int>
    decreases data.len() - from,
{
    if from < 0 || from >= data.len() {
        None
    } else if data[from] == b {
        Some(from)
    } else {
        first(data, from + 1, b)
    }
}

/// Whether `b` begins an integer or a byte string.
pub open spec fn begins_scalar(b: u8) -> bool {
    b == INTEGER || is_digit(b)
}

/// The position just past the integer or byte string that begins at `pos`, if
/// it is complete.
pub open spec fn scalar_end(data: Seq<u8>, pos: int) -> Option<int> {
    if data[pos] == INTEGER {
        match first(data, pos + 1, END) {
            Some(end) => Some(end + 1),
            None => None,
        }
    } else {
        match first(data, pos, COLON) {
            Some(colon) => {
                let end = colon + 1 + number(data.subrange(pos, colon));
                if all_digits(data.subrange(pos, colon)) && end <= data.len() {
                    Some(end)
                } else {
                    None
                }
            },
            None => None,
        }
    }
}

/// The position just past the byte that closes the outermost container, when
/// `depth` containers are open at `pos`. A closing byte with no container open counts
/// as one that is missing, to be made up for by a later opening byte.
pub open spec fn container_end(data: Seq<u8>, pos: int, depth: int) -> Option<int>
    decreases data.len() - pos,
{
    if pos < 0 || pos >= data.len() {
        None
    } else if data[pos] == DICT || data[pos] == LIST {
        container_end(data, pos + 1, depth + 1)
    } else if data[pos] == END {
        if depth == 1 {
            Some(pos + 1)
        } else {
            container_end(data, pos + 1, depth - 1)
        }
    } else if begins_scalar(data[pos]) {
        match scalar_end(data, pos) {
            Some(end) => if pos < end <= data.len() {
                container_end(data, end, depth)
            } else {
                None
            },
            None => None,
        }
    } else {
        None
    }
}

/// The length of the bencoded value at the beginning of `data`, if `data` holds
/// all of it. Data that begin with a closing byte do not begin with a value: their
/// length is up to where the opening bytes first outnumber the closing ones and the
/// container so opened is closed.
pub open spec fn value_len(data: Seq<u8>) -> Option<int> {
    if data.len() > 0 && begins_scalar(data[0]) {
        scalar_end(data, 0)
    } else {
        container_end(data, 0, 0)
    }
}

/// A bencoded value. A dictionary has one value for each key.
pub enum Value {
    Int(int),
    Bytes(Seq<u8>),
    List(Seq<Value>),
    Dict(Seq<Seq<u8>>, Seq<Value>),
}

/// `n` in decimal notation, as ASCII bytes.
pub open spec fn ascii_decimal(n: nat) -> Seq<u8>
    decreases n,
{
    if n < 10 {
        seq![(0x30 + n) as u8]
    } else {
        ascii_decimal(n / 10).push((0x30 + n % 10) as u8)
    }
}

/// `n` in decimal notation with its sign, as ASCII bytes.
pub open spec fn ascii_integer(n: int) -> Seq<u8> {
    if n < 0 {
        seq![0x2du8] + ascii_decimal((-n) as nat)
    } else {
        ascii_decimal(n as nat)
    }
}

/// The bencoding of a byte string.
pub open spec fn encoded_bytes(b: Seq<u8>) -> Seq<u8> {
    ascii_decimal(b.len()) + seq![COLON] + b
}

/// The bencoding of a value.
pub open spec fn encoded(v: Value) -> Seq<u8>
    decreases v,
{
    match v {
        Value::Int(n) => seq![INTEGER] + ascii_integer(n) + seq![END],
        Value::Bytes(b) => encoded_bytes(b),
        Value::List(items) => seq![LIST] + encoded_items(items) + seq![END],
        Value::Dict(keys, values) => seq![DICT] + encoded_entries(keys, values) + seq![END],
    }
}

/// The bencodings of the items of a list, one after the other.
pub open spec fn encoded_items(items: Seq<Value>) -> Seq<u8>
    decreases items,
{
    if items.len() == 0 {
        seq![]
    } else {
        encoded(items[0]) + encoded_items(items.subrange(1, items.len() as int))
    }
}

/// The bencodings of the keys and values of a dictionary, each key before its value.
pub open spec fn encoded_entries(keys: Seq<Seq<u8>>, values: Seq<Value>) -> Seq<u8>
    decreases values,
{
    if values.len() == 0 {
        seq![]
    } else {
        encoded_bytes(keys[0]) + encoded(values[0]) + encoded_entries(
            keys.subrange(1, keys.len() as int),
            values.subrange(1, values.len() as int),
        )
    }
}

/// Whether every dictionary in `v` has as many keys as values.
pub open spec fn well_formed(v: Value) -> bool
    decreases v,
{
    match v {
        Value::Int(_) => true,
        Value::Bytes(_) => true,
        Value::List(items) => forall|i: int|
            0 <= i < items.len() ==> well_formed(#[trigger] items[i]),
        Value::Dict(keys, values) => keys.len() == values.len() && forall|i: int|
            0 <= i < values.len() ==> well_formed(#[trigger] values[i]),
    }
}

/// Whether `data` holds `s` at position `pos`.
spec fn holds(data: Seq<u8>, pos: int, s: Seq<u8>) -> bool {
    &&& 0 <= pos
    &&& pos + s.len() <= data.len()
    &&& data.subrange(pos, pos + s.len()) == s
}

proof fn lemma_holds_parts(data: Seq<u8>, pos: int, a: Seq<u8>, b: Seq<u8>)
    requires
        holds(data, pos, a + b),
    ensures
        holds(data, pos, a),
        holds(data, pos + a.len(), b),
{
    let whole = data.subrange(pos, pos + (a + b).len());
    assert(data.subrange(pos, pos + a.len()) =~= whole.take(a.len() as int));
    assert(whole.take(a.len() as int) =~= a);
    assert(data.subrange(pos + a.len(), pos + a.len() + b.len()) =~= whole.skip(a.len() as int));
    assert(whole.skip(a.len() as int) =~= b);
}

proof fn lemma_holds_byte(data: Seq<u8>, pos: int, b: u8)
    requires
        holds(data, pos, seq![b]),
    ensures
        0 <= pos < data.len(),
        data[pos] == b,
{
    assert(data[pos] == data.subrange(pos, pos + 1)[0]);
}

proof fn lemma_ascii_decimal(n: nat)
    ensures
        ascii_decimal(n).len() > 0,
        all_digits(ascii_decimal(n)),
        number(ascii_decimal(n)) == n,
    decreases n,
{
    reveal_with_fuel(number, 2);
    if n < 10 {
        assert(ascii_decimal(n).drop_last() =~= Seq::<u8>::empty());
    } else {
        lemma_ascii_decimal(n / 10);
        assert(ascii_decimal(n).drop_last() =~= ascii_decimal(n / 10));
    }
}

proof fn lemma_skip_bytes(data: Seq<u8>, pos: int, b: Seq<u8>)
    requires
        holds(data, pos, encoded_bytes(b)),
    ensures
        0 <= pos < data.len(),
        is_digit(data[pos]),
        scalar_end(data, pos) == Some(pos + encoded_bytes(b).len()),
{
    let digits = ascii_decimal(b.len());
    lemma_ascii_decimal(b.len());
    lemma_holds_parts(data, pos, digits + seq![COLON], b);
    lemma_holds_parts(data, pos, digits, seq![COLON]);
    let colon = pos + digits.len();
    lemma_holds_byte(data, colon, COLON);
    assert forall|j: int| pos <= j < colon implies is_digit(#[trigger] data[j]) by {
        assert(data[j] == data.subrange(pos, colon)[j - pos]);
    }
    lemma_first_at(data, pos, COLON, colon);
}

proof fn lemma_skip_integer(data: Seq<u8>, pos: int, n: int)
    requires
        holds(data, pos, encoded(Value::Int(n))),
    ensures
        0 <= pos < data.len(),
        data[pos] == INTEGER,
        scalar_end(data, pos) == Some(pos + encoded(Value::Int(n)).len()),
{
    let text = ascii_integer(n);
    lemma_ascii_decimal(if n < 0 { (-n) as nat } else { n as nat });
    lemma_holds_parts(data, pos, seq![INTEGER] + text, seq![END]);
    lemma_holds_parts(data, pos, seq![INTEGER], text);
    lemma_holds_byte(data, pos, INTEGER);
    let end = pos + 1 + text.len();
    lemma_holds_byte(data, end, END);
    assert forall|j: int| pos + 1 <= j < end implies data[j] != END by {
        assert(data[j] == data.subrange(pos + 1, end)[j - pos - 1]);
        if n < 0 {
            assert(text.skip(1) =~= ascii_decimal((-n) as nat));
            if j > pos + 1 {
                assert(text[j - pos - 1] == text.skip(1)[j - pos - 2]);
            }
        }
    }
    lemma_first_at(data, pos + 1, END, end);
}

proof fn lemma_skip_value(data: Seq<u8>, pos: int, v: Value, depth: int)
    requires
        well_formed(v),
        holds(data, pos, encoded(v)),
        depth >= 1,
    ensures
        container_end(data, pos, depth) == container_end(data, pos + encoded(v).len(), depth),
    decreases v,
{
    match v {
        Value::Int(n) => {
            lemma_skip_integer(data, pos, n);
        },
        Value::Bytes(b) => {
            lemma_skip_bytes(data, pos, b);
        },
        Value::List(items) => {
            let inner = encoded_items(items);
            lemma_holds_parts(data, pos, seq![LIST] + inner, seq![END]);
            lemma_holds_parts(data, pos, seq![LIST], inner);
            lemma_holds_byte(data, pos, LIST);
            lemma_holds_byte(data, pos + 1 + inner.len(), END);
            lemma_skip_items(data, pos + 1, items, depth + 1);
        },
        Value::Dict(keys, values) => {
            let inner = encoded_entries(keys, values);
            lemma_holds_parts(data, pos, seq![DICT] + inner, seq![END]);
            lemma_holds_parts(data, pos, seq![DICT], inner);
            lemma_holds_byte(data, pos, DICT);
            lemma_holds_byte(data, pos + 1 + inner.len(), END);
            lemma_skip_entries(data, pos + 1, keys, values, depth + 1);
        },
    }
}

proof fn lemma_skip_items(data: Seq<u8>, pos: int, items: Seq<Value>, depth: int)
    requires
        forall|i: int| 0 <= i < items.len() ==> well_formed(#[trigger] items[i]),
        holds(data, pos, encoded_items(items)),
        depth >= 1,
    ensures
        container_end(data, pos, depth) == container_end(
            data,
            pos + encoded_items(items).len(),
            depth,
        ),
    decreases items,
{
    if items.len() > 0 {
        let rest = items.subrange(1, items.len() as int);
        lemma_holds_parts(data, pos, encoded(items[0]), encoded_items(rest));
        lemma_skip_value(data, pos, items[0], depth);
        lemma_skip_items(data, pos + encoded(items[0]).len(), rest, depth);
    }
}

proof fn lemma_skip_entries(
    data: Seq<u8>,
    pos: int,
    keys: Seq<Seq<u8>>,
    values: Seq<Value>,
    depth: int,
)
    requires
        keys.len() == values.len(),
        forall|i: int| 0 <= i < values.len() ==> well_formed(#[trigger] values[i]),
        holds(data, pos, encoded_entries(keys, values)),
        depth >= 1,
    ensures
        container_end(data, pos, depth) == container_end(
            data,
            pos + encoded_entries(keys, values).len(),
            depth,
        ),
    decreases values,
{
    if values.len() > 0 {
        let more_keys = keys.subrange(1, keys.len() as int);
        let more_values = values.subrange(1, values.len() as int);
        let key = encoded_bytes(keys[0]);
        let value = encoded(values[0]);
        lemma_holds_parts(data, pos, key + value, encoded_entries(more_keys, more_values));
        lemma_holds_parts(data, pos, key, value);
        lemma_skip_bytes(data, pos, keys[0]);
        lemma_skip_value(data, pos + key.len(), values[0], depth);
        lemma_skip_entries(data, pos + key.len() + value.len(), more_keys, more_values, depth);
    }
}

/// The scan of an encoded value stops just past it, whatever follows.
pub proof fn law_value_len_of_encoding(v: Value, rest: Seq<u8>)
    requires
        well_formed(v),
    ensures
        value_len(encoded(v) + rest) == Some(encoded(v).len() as int),
{
    let data = encoded(v) + rest;
    assert(data.subrange(0, encoded(v).len() as int) =~= encoded(v));
    assert(holds(data, 0, encoded(v)));
    match v {
        Value::Int(n) => {
            lemma_skip_integer(data, 0, n);
        },
        Value::Bytes(b) => {
            lemma_skip_bytes(data, 0, b);
        },
        Value::List(items) => {
            let inner = encoded_items(items);
            lemma_holds_parts(data, 0, seq![LIST] + inner, seq![END]);
            lemma_holds_parts(data, 0, seq![LIST], inner);
            lemma_holds_byte(data, 0, LIST);
            lemma_holds_byte(data, 1int + inner.len(), END);
            lemma_skip_items(data, 1, items, 1);
        },
        Value::Dict(keys, values) => {
            let inner = encoded_entries(keys, values);
            lemma_holds_parts(data, 0, seq![DICT] + inner, seq![END]);
            lemma_holds_parts(data, 0, seq![DICT], inner);
            lemma_holds_byte(data, 0, DICT);
            lemma_holds_byte(data, 1int + inner.len(), END);
            lemma_skip_entries(data, 1, keys, values, 1);
        },
    }
}

proof fn lemma_first(data: Seq<u8>, from: int, b: u8)
    requires
        0 <= from,
    ensures
        match first(data, from, b) {
            Some(i) => from <= i < data.len() && data[i] == b && forall|j: int|
                from <= j < i ==> data[j] != b,
            None => forall|j: int| from <= j < data.len() ==> data[j] != b,
        },
    decreases data.len() - from,
{
    if from < data.len() && data[from] != b {
        lemma_first(data, from + 1, b);
    }
}

proof fn lemma_first_at(data: Seq<u8>, from: int, b: u8, at: int)
    requires
        0 <= from <= at < data.len(),
        data[at] == b,
        forall|j: int| from <= j < at ==> data[j] != b,
    ensures
        first(data, from, b) == Some(at),
    decreases at - from,
{
    if from < at {
        lemma_first_at(data, from + 1, b, at);
    }
}

proof fn lemma_scalar_advances(data: Seq<u8>, pos: int)
    requires
        0 <= pos < data.len(),
    ensures
        scalar_end(data, pos) matches Some(end) ==> pos < end <= data.len(),
{
    lemma_first(data, pos, COLON);
    lemma_first(data, pos + 1, END);
}

/// Whether two byte strings have the same first `end` bytes.
spec fn agree(a: Seq<u8>, b: Seq<u8>, end: int) -> bool {
    &&& end <= a.len()
    &&& end <= b.len()
    &&& forall|i: int| 0 <= i < end ==> a[i] == b[i]
}

proof fn lemma_scalar_local(a: Seq<u8>, b: Seq<u8>, pos: int, end: int)
    requires
        0 <= pos < a.len(),
        scalar_end(a, pos) == Some(end),
        agree(a, b, end),
    ensures
        pos < end,
        scalar_end(b, pos) == Some(end),
{
    lemma_scalar_advances(a, pos);
    lemma_first(a, pos, COLON);
    lemma_first(a, pos + 1, END);
    if a[pos] == INTEGER {
        lemma_first_at(b, pos + 1, END, end - 1);
    } else {
        let colon = first(a, pos, COLON)->0;
        lemma_first_at(b, pos, COLON, colon);
        assert(a.subrange(pos, colon) =~= b.subrange(pos, colon));
    }
}

proof fn lemma_container_local(a: Seq<u8>, b: Seq<u8>, pos: int, depth: int, end: int)
    requires
        0 <= pos < a.len(),
        container_end(a, pos, depth) == Some(end),
        agree(a, b, end),
    ensures
        pos < end,
        container_end(b, pos, depth) == Some(end),
    decreases a.len() - pos,
{
    if a[pos] == DICT || a[pos] == LIST {
        lemma_container_bounded(a, pos + 1, depth + 1);
        lemma_container_local(a, b, pos + 1, depth + 1, end);
    } else if a[pos] == END {
        if depth != 1 {
            lemma_container_bounded(a, pos + 1, depth - 1);
            lemma_container_local(a, b, pos + 1, depth - 1, end);
        }
    } else {
        let next = scalar_end(a, pos)->0;
        lemma_container_bounded(a, next, depth);
        lemma_container_local(a, b, next, depth, end);
        lemma_scalar_local(a, b, pos, next);
    }
}

/// The length of a value is decided by the bytes of the value alone, whatever follows
/// them.
pub proof fn law_value_len_local(data: Seq<u8>, n: int, rest: Seq<u8>)
    requires
        value_len(data) == Some(n),
    ensures
        0 < n <= data.len(),
        value_len(data.take(n) + rest) == Some(n),
{
    assert(data.len() > 0);
    lemma_scalar_advances(data, 0);
    if begins_scalar(data[0]) {
        let other = data.take(n) + rest;
        lemma_scalar_local(data, other, 0, n);
    } else {
        lemma_container_bounded(data, 0, 0);
        let other = data.take(n) + rest;
        lemma_container_local(data, other, 0, 0, n);
    }
}

proof fn lemma_container_bounded(data: Seq<u8>, pos: int, depth: int)
    requires
        0 <= pos,
    ensures
        container_end(data, pos, depth) matches Some(end) ==> pos < end <= data.len(),
    decreases data.len() - pos,
{
    if pos < data.len() {
        if data[pos] == DICT || data[pos] == LIST {
            lemma_container_bounded(data, pos + 1, depth + 1);
        } else if data[pos] == END {
            if depth != 1 {
                lemma_container_bounded(data, pos + 1, depth - 1);
            }
        } else if begins_scalar(data[pos]) {
            if let Some(end) = scalar_end(data, pos) {
                if pos < end <= data.len() {
                    lemma_container_bounded(data, end, depth);
                }
            }
        }
    }
}

/// A value that is cut off has no length.
pub proof fn law_value_len_of_prefix(v: Value, n: int)
    requires
        well_formed(v),
        0 <= n < encoded(v).len(),
    ensures
        value_len(encoded(v).take(n)) is None,
{
    let all = encoded(v);
    let cut = all.take(n);
    if let Some(m) = value_len(cut) {
        law_value_len_local(cut, m, all.skip(m));
        assert(cut.take(m) + all.skip(m) =~= all);
        law_value_len_of_encoding(v, seq![]);
        assert(all + Seq::<u8>::empty() =~= all);
    }
}

/// Where no value begins, there is no length.
pub proof fn law_no_value(data: Seq<u8>)
    requires
        data.len() == 0 || !(data[0] == 'd' as u8 || data[0] == 'l' as u8 || data[0] == 'i' as u8
            || data[0] == 'e' as u8 || '0' as u8 <= data[0] <= '9' as u8),
    ensures
        value_len(data) is None,
{
}

/// The bytes that make up bencoded values are the ASCII characters `d`, `l`, `i`, `e` and
/// `:` and the digits.
pub proof fn law_bencode_bytes(b: u8)
    ensures
        DICT == 'd' as u8,
        LIST == 'l' as u8,
        INTEGER == 'i' as u8,
        END == 'e' as u8,
        COLON == ':' as u8,
        is_digit(b) == ('0' as int <= b as int <= '9' as int),
{
}

proof fn lemma_number_prefix(s: Seq<u8>, n: int)
    requires
        0 <= n <= s.len(),
    ensures
        number(s.take(n)) <= number(s),
    decreases s.len() - n,
{
    if n < s.len() {
        assert(s.take(n + 1).drop_last() =~= s.take(n));
        lemma_number_prefix(s, n + 1);
    } else {
        assert(s.take(n) =~= s);
    }
}

/// The position of the first `b` at or after `from`.
fn find(data: &[u8], from: usize, b: u8) -> (r: Option<usize>)
    requires
        from <= data@.len(),
    ensures
        match r {
            Some(i) => first(data@, from as int, b) == Some(i as int) && from <= i < data@.len(),
            None => first(data@, from as int, b) is None,
        },
{
    let mut i: usize = from;
    while i < data.len()
        invariant
            from <= i <= data@.len(),
            first(data@, from as int, b) == first(data@, i as int, b),
        decreases data@.len() - i,
    {
        if data[i] == b {
            return Some(i);
        }
        i += 1;
    }
    None
}

/// The position just past the byte string whose length is written in
/// `data[pos..colon]`.
fn byte_string_end(data: &[u8], pos: usize, colon: usize) -> (r: Option<usize>)
    requires
        pos <= colon < data@.len(),
    ensures
        ({
            let digits = data@.subrange(pos as int, colon as int);
            let end = colon + 1 + number(digits);
            match r {
                Some(n) => n == end && all_digits(digits) && end <= data@.len(),
                None => !all_digits(digits) || end > data@.len(),
            }
        }),
{
    let ghost digits = data@.subrange(pos as int, colon as int);
    let mut len: usize = 0;
    let mut i: usize = pos;
    while i < colon
        invariant
            pos <= i <= colon < data@.len(),
            digits == data@.subrange(pos as int, colon as int),
            forall|j: int| 0 <= j < i - pos ==> is_digit(#[trigger] digits[j]),
            len == number(digits.take(i - pos)),
        decreases colon - i,
    {
        let b: u8 = data[i];
        assert(digits[i - pos] == b);
        if b < 0x30 || b > 0x39 {
            return None;
        }
        proof {
            assert(digits.take(i - pos + 1).drop_last() =~= digits.take(i - pos));
            lemma_number_prefix(digits, i - pos + 1);
        }
        let tens: usize = match len.checked_mul(10) {
            Some(tens) => tens,
            None => {
                return None;
            },
        };
        len = match tens.checked_add((b - 0x30) as usize) {
            Some(len) => len,
            None => {
                return None;
            },
        };
        i += 1;
    }
    assert(digits.take(i - pos) =~= digits);
    let rest: usize = data.len() - colon - 1;
    if len <= rest {
        Some(colon + 1 + len)
    } else {
        None
    }
}

/// The position just past the integer or byte string that begins at `pos`.
fn skip_scalar(data: &[u8], pos: usize) -> (r: Option<usize>)
    requires
        pos < data@.len(),
    ensures
        match r {
            Some(end) => scalar_end(data@, pos as int) == Some(end as int) && pos < end
                <= data@.len(),
            None => scalar_end(data@, pos as int) is None,
        },
{
    proof {
        lemma_scalar_advances(data@, pos as int);
    }
    if data[pos] == INTEGER {
        match find(data, pos + 1, END) {
            Some(end) => Some(end + 1),
            None => None,
        }
    } else {
        match find(data, pos, COLON) {
            Some(colon) => byte_string_end(data, pos, colon),
            None => None,
        }
    }
}

/// Finds the byte length of a bencoded value.
///
/// Walks through the data with a depth counter for the open dictionaries and
/// lists, and returns the position just past the end of the outermost value.
/// `None` means that the data does not hold a complete value.
///
/// The data must start at a value boundary for the result to be the length of a value.
/// Where they start with a closing byte, that byte is counted against a later opening
/// one.
pub fn bencode_value_len(data: &[u8]) -> (r: Option<usize>)
    ensures
        match r {
            Some(n) => value_len(data@) == Some(n as int) && 0 < n <= data@.len(),
            None => value_len(data@) is None,
        },
{
    if data.len() > 0 && (data[0] == INTEGER || (0x30 <= data[0] && data[0] <= 0x39)) {
        return skip_scalar(data, 0);
    }
    let mut pos: usize = 0;
    let mut depth: i128 = 0;
    while pos < data.len()
        invariant
            pos <= data@.len(),
            -pos <= depth <= pos,
            value_len(data@) == container_end(data@, pos as int, depth as int),
        decreases data@.len() - pos,
    {
        let b: u8 = data[pos];
        if b == DICT || b == LIST {
            depth += 1;
            pos += 1;
        } else if b == END {
            depth -= 1;
            pos += 1;
            if depth == 0 {
                return Some(pos);
            }
        } else if b == INTEGER || (0x30 <= b && b <= 0x39) {
            match skip_scalar(data, pos) {
                Some(end) => {
                    pos = end;
                },
                None => {
                    return None;
                },
            }
        } else {
            return None;
        }
    }
    None
}

} // verus!
