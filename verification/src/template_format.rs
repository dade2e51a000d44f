use vstd::prelude::*;
use vstd::string::*;

verus! {

/// The byte of a comma.
pub const COMMA: u8 = 44;

/// The byte of a plus sign.
pub const PLUS: u8 = 43;

/// The byte of the digit zero.
pub const ZERO: u8 = 48;

/// The byte of the digit nine.
pub const NINE: u8 = 57;

/// `s` without its trailing commas.
pub open spec fn trim_trailing_commas(s: Seq<u8>) -> Seq<u8>
    decreases s.len(),
{
    if s.len() > 0 && s.last() == COMMA {
        trim_trailing_commas(s.drop_last())
    } else {
        s
    }
}

/// The fields of `s` between commas, as `split(',')` yields them: one more
/// field than there are commas, empty fields included.
pub open spec fn split_commas(s: Seq<u8>) -> Seq<Seq<u8>>
    decreases s.len(),
{
    if s.len() == 0 {
        seq![Seq::empty()]
    } else {
        let prev = split_commas(s.drop_last());
        if s.last() == COMMA {
            prev.push(Seq::empty())
        } else {
            prev.update(prev.len() - 1, prev.last().push(s.last()))
        }
    }
}

/// The byte is an ASCII decimal digit.
pub open spec fn is_digit(b: u8) -> bool {
    ZERO <= b <= NINE
}

/// Every byte is an ASCII decimal digit.
pub open spec fn all_digits(d: Seq<u8>) -> bool {
    forall|i: int| 0 <= i < d.len() ==> is_digit(#[trigger] d[i])
}

/// The decimal value of a string of digits.
pub open spec fn decimal_value(d: Seq<u8>) -> nat
    decreases d.len(),
{
    if d.len() == 0 {
        0
    } else {
        decimal_value(d.drop_last()) * 10 + (d.last() - ZERO) as nat
    }
}

/// The digits of a field after an optional leading plus sign.
pub open spec fn unsigned_digits(t: Seq<u8>) -> Seq<u8> {
    if t.len() > 0 && t[0] == PLUS {
        t.drop_first()
    } else {
        t
    }
}

/// What `str::parse::<u8>` gives for a field: an optional `+`, then at
/// least one decimal digit, of value at most 255.
pub open spec fn parse_u8_field(t: Seq<u8>) -> Option<u8> {
    let d = unsigned_digits(t);
    if d.len() > 0 && all_digits(d) && decimal_value(d) <= 255 {
        Some(decimal_value(d) as u8)
    } else {
        None
    }
}

/// The values of the fields that parse, in order (the rest are skipped).
pub open spec fn parsed_fields(ts: Seq<Seq<u8>>) -> Seq<u8>
    decreases ts.len(),
{
    if ts.len() == 0 {
        Seq::empty()
    } else {
        match parse_u8_field(ts.last()) {
            Some(v) => parsed_fields(ts.drop_last()).push(v),
            None => parsed_fields(ts.drop_last()),
        }
    }
}

/// Every field parses.
pub open spec fn all_fields_parse(ts: Seq<Seq<u8>>) -> bool {
    forall|i: int| 0 <= i < ts.len() ==> (#[trigger] parse_u8_field(ts[i])) is Some
}

/// The fields of a template file: its text without trailing commas, split
/// at commas.
pub open spec fn template_fields(content: Seq<u8>) -> Seq<Seq<u8>> {
    split_commas(trim_trailing_commas(content))
}

proof fn lemma_split_commas_nonempty(s: Seq<u8>)
    ensures
        split_commas(s).len() >= 1,
    decreases s.len(),
{
    if s.len() > 0 {
        lemma_split_commas_nonempty(s.drop_last());
    }
}

/// Parses the field `bytes[start..end]` as `str::parse::<u8>` does.
fn parse_u8_range(bytes: &[u8], start: usize, end: usize) -> (res: Option<u8>)
    requires
        start <= end <= bytes.len(),
    ensures
        res == parse_u8_field(bytes@.subrange(start as int, end as int)),
{
    let ghost t = bytes@.subrange(start as int, end as int);
    let mut first = start;
    if start < end && bytes[start] == PLUS {
        first = start + 1;
    }
    proof {
        assert(unsigned_digits(t) == bytes@.subrange(first as int, end as int));
    }
    if first == end {
        return None;
    }
    let mut value: u32 = 0;
    let mut i = first;
    while i < end
        invariant
            first <= i <= end <= bytes.len(),
            start <= first < end,
            unsigned_digits(bytes@.subrange(start as int, end as int)) == bytes@.subrange(
                first as int,
                end as int,
            ),
            value <= 255,
            all_digits(bytes@.subrange(first as int, i as int)),
            value == decimal_value(bytes@.subrange(first as int, i as int)),
        decreases end - i,
    {
        let b = bytes[i];
        proof {
            assert(bytes@.subrange(first as int, i + 1).drop_last() == bytes@.subrange(
                first as int,
                i as int,
            ));
        }
        if b < ZERO || b > NINE {
            proof {
                let d = bytes@.subrange(first as int, end as int);
                assert(d[i - first] == b);
                assert(!is_digit(d[i - first]));
                assert(!all_digits(d));
            }
            return None;
        }
        let next = value * 10 + (b - ZERO) as u32;
        if next > 255 {
            proof {
                let d = bytes@.subrange(first as int, end as int);
                if all_digits(d) {
                    lemma_digits_value_grows(d, i + 1 - first);
                    assert(d.take(i + 1 - first) == bytes@.subrange(first as int, i + 1));
                }
            }
            return None;
        }
        value = next;
        i = i + 1;
    }
    Some(value as u8)
}

/// A prefix of a string of digits is worth at most the whole.
proof fn lemma_digits_value_grows(d: Seq<u8>, k: int)
    requires
        0 <= k <= d.len(),
        all_digits(d),
    ensures
        decimal_value(d.take(k)) <= decimal_value(d),
    decreases d.len(),
{
    if k < d.len() {
        assert(d.drop_last().take(k) == d.take(k));
        assert(all_digits(d.drop_last()));
        lemma_digits_value_grows(d.drop_last(), k);
    } else {
        assert(d.take(k) == d);
    }
}

proof fn lemma_all_fields_parse_push(ts: Seq<Seq<u8>>, t: Seq<u8>)
    ensures
        all_fields_parse(ts.push(t)) == (all_fields_parse(ts) && parse_u8_field(t) is Some),
{
    if all_fields_parse(ts.push(t)) {
        assert forall|k: int| 0 <= k < ts.len() implies (#[trigger] parse_u8_field(ts[k])) is Some by {
            assert(ts.push(t)[k] == ts[k]);
        }
        assert(ts.push(t)[ts.len() as int] == t);
    }
    if all_fields_parse(ts) && parse_u8_field(t) is Some {
        assert forall|k: int| 0 <= k < ts.push(t).len() implies (#[trigger] parse_u8_field(
            ts.push(t)[k],
        )) is Some by {
            if k < ts.len() {
                assert(ts.push(t)[k] == ts[k]);
            }
        }
    }
}

/// The length of `content` without its trailing commas.
fn trimmed_len(content: &[u8]) -> (end: usize)
    ensures
        end <= content.len(),
        content@.take(end as int) == trim_trailing_commas(content@),
{
    let mut end = content.len();
    proof {
        assert(content@.take(end as int) == content@);
    }
    while end > 0 && content[end - 1] == COMMA
        invariant
            end <= content.len(),
            trim_trailing_commas(content@.take(end as int)) == trim_trailing_commas(content@),
        decreases end,
    {
        proof {
            assert(content@.take(end as int).drop_last() == content@.take(end - 1));
        }
        end = end - 1;
    }
    end
}

/// Splits the template text at commas and parses each field: the values of
/// the fields that parse, and whether all of them did.
fn scan_fields(content: &[u8]) -> (res: (Vec<u8>, bool))
    ensures
        res.0@ == parsed_fields(template_fields(content@)),
        res.1 == all_fields_parse(template_fields(content@)),
{
    let end = trimmed_len(content);
    let ghost trimmed = content@.take(end as int);
    let mut values: Vec<u8> = Vec::new();
    let mut all_ok = true;
    let mut start: usize = 0;
    let mut i: usize = 0;
    let ghost mut done: Seq<Seq<u8>> = Seq::empty();
    proof {
        assert(trimmed.take(0) == Seq::<u8>::empty());
        assert(content@.subrange(0, 0) == Seq::<u8>::empty());
        assert(done.push(Seq::<u8>::empty()) == seq![Seq::<u8>::empty()]);
    }
    while i < end
        invariant
            end <= content.len(),
            start <= i <= end,
            trimmed == content@.take(end as int),
            split_commas(trimmed.take(i as int)) == done.push(content@.subrange(start as int, i as int)),
            values@ == parsed_fields(done),
            all_ok == all_fields_parse(done),
        decreases end - i,
    {
        proof {
            assert(trimmed.take(i + 1).drop_last() == trimmed.take(i as int));
            assert(trimmed.take(i + 1).last() == content@[i as int]);
        }
        if content[i] == COMMA {
            let field = parse_u8_range(content, start, i);
            let ghost next = done.push(content@.subrange(start as int, i as int));
            proof {
                assert(next.drop_last() == done);
                assert(content@.subrange(i + 1, i + 1) == Seq::<u8>::empty());
                lemma_all_fields_parse_push(done, content@.subrange(start as int, i as int));
            }
            match field {
                Some(v) => values.push(v),
                None => all_ok = false,
            }
            proof {
                done = next;
            }
            start = i + 1;
        } else {
            proof {
                assert(content@.subrange(start as int, i + 1) == content@.subrange(
                    start as int,
                    i as int,
                ).push(content@[i as int]));
            }
        }
        i = i + 1;
    }
    let field = parse_u8_range(content, start, end);
    let ghost all = done.push(content@.subrange(start as int, end as int));
    proof {
        assert(all.drop_last() == done);
        lemma_all_fields_parse_push(done, content@.subrange(start as int, end as int));
        assert(trimmed.take(end as int) == trimmed);
    }
    match field {
        Some(v) => values.push(v),
        None => all_ok = false,
    }
    (values, all_ok)
}

/// The values of a template text, skipping the fields that do not parse
/// (a trailing newline, for instance, spoils the last field).
pub fn parse_template_values(content: &str) -> (res: Vec<u8>)
    ensures
        res@ == parsed_fields(template_fields(content.spec_bytes())),
{
    let bytes = content.as_bytes();
    scan_fields(bytes).0
}

/// The values of a template text in which every field must parse: `None`
/// as soon as one does not.
pub fn parse_template_values_strict(content: &str) -> (res: Option<Vec<u8>>)
    ensures
        all_fields_parse(template_fields(content.spec_bytes())) ==> (res matches Some(v) && v@
            == parsed_fields(template_fields(content.spec_bytes()))),
        !all_fields_parse(template_fields(content.spec_bytes())) ==> res is None,
{
    let bytes = content.as_bytes();
    let (values, all_ok) = scan_fields(bytes);
    if all_ok {
        Some(values)
    } else {
        None
    }
}

/// The decimal notation of `n` in ASCII bytes.
pub open spec fn decimal_bytes(n: nat) -> Seq<u8>
    decreases n,
{
    if n < 10 {
        seq![(ZERO + n) as u8]
    } else {
        decimal_bytes(n / 10).push((ZERO + n % 10) as u8)
    }
}

/// A template written out: each value in decimal, followed by a comma.
pub open spec fn render_template(values: Seq<u8>) -> Seq<u8>
    decreases values.len(),
{
    if values.len() == 0 {
        Seq::empty()
    } else {
        render_template(values.drop_last()) + decimal_bytes(values.last() as nat) + seq![COMMA]
    }
}

/// The decimal notation of each value.
pub open spec fn decimal_fields(values: Seq<u8>) -> Seq<Seq<u8>> {
    Seq::new(values.len(), |i: int| decimal_bytes(values[i] as nat))
}

proof fn lemma_decimal_bytes(n: nat)
    ensures
        decimal_bytes(n).len() > 0,
        all_digits(decimal_bytes(n)),
        decimal_value(decimal_bytes(n)) == n,
        !decimal_bytes(n).contains(COMMA),
        decimal_bytes(n)[0] != PLUS,
    decreases n,
{
    if n >= 10 {
        lemma_decimal_bytes(n / 10);
        let d = decimal_bytes(n);
        assert(d.drop_last() == decimal_bytes(n / 10));
        assert(d.last() == (ZERO + n % 10) as u8);
        assert(d.last() - ZERO == n % 10);
        assert((n / 10) * 10 + n % 10 == n);
        assert(decimal_value(d) == decimal_value(d.drop_last()) * 10 + (d.last() - ZERO) as nat);
        assert forall|i: int| 0 <= i < d.len() implies is_digit(#[trigger] d[i]) by {
            if i < d.len() - 1 {
                assert(d[i] == decimal_bytes(n / 10)[i]);
            }
        }
        assert(d[0] == decimal_bytes(n / 10)[0]);
        if d.contains(COMMA) {
            let i = choose|i: int| 0 <= i < d.len() && d[i] == COMMA;
            assert(is_digit(d[i]));
        }
    } else {
        let d = decimal_bytes(n);
        assert(d.drop_last() =~= Seq::<u8>::empty());
        assert(decimal_value(d) == decimal_value(d.drop_last()) * 10 + (d.last() - ZERO) as nat);
        if d.contains(COMMA) {
            let i = choose|i: int| 0 <= i < d.len() && d[i] == COMMA;
            assert(i == 0);
        }
    }
}

proof fn lemma_decimal_field_parses(x: u8)
    ensures
        parse_u8_field(decimal_bytes(x as nat)) == Some(x),
{
    lemma_decimal_bytes(x as nat);
    assert(unsigned_digits(decimal_bytes(x as nat)) == decimal_bytes(x as nat));
}

/// The fields of a written template followed by `d`, a run without
/// commas: the decimal notations of the values, then `d`.
proof fn lemma_split_rendered(values: Seq<u8>, d: Seq<u8>)
    requires
        !d.contains(COMMA),
    ensures
        split_commas(render_template(values) + d) == decimal_fields(values).push(d),
    decreases values.len(), d.len(),
{
    let r = render_template(values);
    if d.len() > 0 {
        assert(!d.drop_last().contains(COMMA)) by {
            if d.drop_last().contains(COMMA) {
                let i = choose|i: int| 0 <= i < d.drop_last().len() && d.drop_last()[i] == COMMA;
                assert(d[i] == COMMA);
            }
        }
        lemma_split_rendered(values, d.drop_last());
        assert((r + d).drop_last() =~= r + d.drop_last());
        assert((r + d).last() == d.last());
        assert(d.last() != COMMA) by {
            assert(d[d.len() - 1] == d.last());
        }
        assert(d.drop_last().push(d.last()) =~= d);
        let prev = split_commas((r + d).drop_last());
        assert(prev == decimal_fields(values).push(d.drop_last()));
        assert(prev.last() == d.drop_last());
        assert(prev.last().push((r + d).last()) =~= d);
        assert(split_commas(r + d) == prev.update(prev.len() - 1, prev.last().push((r + d).last())));
        assert(prev.update(prev.len() - 1, d) =~= decimal_fields(values).push(d));
        assert(split_commas(r + d) =~= decimal_fields(values).push(d));
    } else if values.len() == 0 {
        assert(r + d =~= Seq::<u8>::empty());
        assert(decimal_fields(values).push(d) =~= seq![Seq::<u8>::empty()]);
    } else {
        let u = values.drop_last();
        let x = values.last();
        lemma_decimal_bytes(x as nat);
        lemma_split_rendered(u, decimal_bytes(x as nat));
        assert(r + d =~= (render_template(u) + decimal_bytes(x as nat)).push(COMMA));
        assert((r + d).drop_last() =~= render_template(u) + decimal_bytes(x as nat));
        assert(decimal_fields(u).push(decimal_bytes(x as nat)) =~= decimal_fields(values));
        assert((r + d).last() == COMMA);
        assert(d =~= Seq::<u8>::empty());
        assert(split_commas(r + d) == split_commas((r + d).drop_last()).push(Seq::<u8>::empty()));
        assert(split_commas(r + d) =~= decimal_fields(values).push(d));
    }
}

proof fn lemma_parse_decimal_fields(values: Seq<u8>)
    ensures
        parsed_fields(decimal_fields(values)) == values,
        all_fields_parse(decimal_fields(values)),
    decreases values.len(),
{
    if values.len() > 0 {
        let u = values.drop_last();
        lemma_parse_decimal_fields(u);
        lemma_decimal_field_parses(values.last());
        assert(decimal_fields(values).drop_last() =~= decimal_fields(u));
        assert(decimal_fields(values).last() == decimal_bytes(values.last() as nat));
        assert(u.push(values.last()) =~= values);
        assert forall|i: int| 0 <= i < values.len() implies (#[trigger] parse_u8_field(
            decimal_fields(values)[i],
        )) is Some by {
            lemma_decimal_field_parses(values[i]);
        }
    } else {
        assert(decimal_fields(values) =~= Seq::<Seq<u8>>::empty());
    }
}

/// Law: reading a written template gives back its values; every field
/// parses when there is at least one value.
pub proof fn lemma_template_reads_back(values: Seq<u8>)
    ensures
        parsed_fields(template_fields(render_template(values))) == values,
        values.len() > 0 ==> all_fields_parse(template_fields(render_template(values))),
{
    if values.len() == 0 {
        assert(template_fields(render_template(values)) == seq![Seq::<u8>::empty()]);
        assert(parse_u8_field(Seq::<u8>::empty()) is None);
        let ts = seq![Seq::<u8>::empty()];
        assert(ts.drop_last() =~= Seq::<Seq<u8>>::empty());
        assert(ts.last() == Seq::<u8>::empty());
        assert(parse_u8_field(ts.last()) is None);
        assert(parsed_fields(ts.drop_last()) == Seq::<u8>::empty());
        assert(parsed_fields(ts) == parsed_fields(ts.drop_last()));
    } else {
        let u = values.drop_last();
        let x = values.last();
        let body = render_template(u) + decimal_bytes(x as nat);
        lemma_decimal_bytes(x as nat);
        assert(render_template(values) =~= body.push(COMMA));
        assert(body.last() == decimal_bytes(x as nat).last());
        assert(body.last() != COMMA) by {
            let d = decimal_bytes(x as nat);
            assert(d.last() == d[d.len() - 1]);
        }
        assert(body.push(COMMA).drop_last() =~= body);
        assert(body.push(COMMA).last() == COMMA);
        assert(body.len() > 0);
        assert(trim_trailing_commas(body) == body);
        assert(trim_trailing_commas(body.push(COMMA)) == trim_trailing_commas(body));
        assert(trim_trailing_commas(render_template(values)) == body);
        lemma_split_rendered(u, decimal_bytes(x as nat));
        assert(decimal_fields(u).push(decimal_bytes(x as nat)) =~= decimal_fields(values));
        lemma_parse_decimal_fields(values);
    }
}

} // verus!
