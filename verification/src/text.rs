use vstd::prelude::*;

verus! {

/// The character that packs the action fields of one connection into a
/// single value: the unit separator, U+001F.
pub const FIELD_SEPARATOR: char = '\u{1f}';

/// The stretches of a text between the occurrences of `at`, in order. A
/// text without `at` is one stretch; two occurrences side by side have an
/// empty stretch between them.
pub open spec fn split_on(text: Seq<char>, at: char) -> Seq<Seq<char>>
    decreases text.len(),
{
    if text.len() == 0 {
        seq![Seq::empty()]
    } else {
        let before = split_on(text.drop_last(), at);
        if text.last() == at {
            before.push(Seq::empty())
        } else {
            before.update(before.len() - 1, before.last().push(text.last()))
        }
    }
}

/// The action fields of a packed value: the stretches between separators,
/// in order. A value without a separator is one field.
pub open spec fn split_fields(value: Seq<char>) -> Seq<Seq<char>> {
    split_on(value, FIELD_SEPARATOR)
}

/// The fields written one after another with a comma between neighbours.
pub open spec fn join_fields(fields: Seq<Seq<char>>) -> Seq<char>
    decreases fields.len(),
{
    if fields.len() == 0 {
        Seq::empty()
    } else if fields.len() == 1 {
        fields[0]
    } else {
        join_fields(fields.drop_last()) + seq![','] + fields.last()
    }
}

/// A packed value as a record shows it: split at the separators and joined
/// again with commas.
pub open spec fn rejoined(value: Seq<char>) -> Seq<char> {
    join_fields(split_fields(value))
}

/// What becomes of one character of a packed value.
pub open spec fn rejoin_char(c: char) -> char {
    if c == FIELD_SEPARATOR {
        ','
    } else {
        c
    }
}

/// The number of separators in a value.
pub open spec fn separator_count(value: Seq<char>) -> nat {
    value.filter(|c: char| c == FIELD_SEPARATOR).len()
}

proof fn lemma_split_nonempty(text: Seq<char>, at: char)
    ensures
        split_on(text, at).len() >= 1,
    decreases text.len(),
{
    if text.len() > 0 {
        lemma_split_nonempty(text.drop_last(), at);
    }
}

proof fn lemma_join_extend_last(fields: Seq<Seq<char>>, c: char)
    requires
        fields.len() >= 1,
    ensures
        join_fields(fields.update(fields.len() - 1, fields.last().push(c))) == join_fields(
            fields,
        ).push(c),
{
    let extended = fields.update(fields.len() - 1, fields.last().push(c));
    if fields.len() == 1 {
    } else {
        assert(extended.drop_last() =~= fields.drop_last());
        assert(join_fields(extended) =~= join_fields(fields).push(c));
    }
}

/// One more character at the end of a value adds its counterpart at the
/// end of the rejoined value.
pub proof fn lemma_rejoined_push(value: Seq<char>, c: char)
    ensures
        rejoined(value.push(c)) == rejoined(value).push(rejoin_char(c)),
{
    let longer = value.push(c);
    assert(longer.drop_last() =~= value);
    let before = split_fields(value);
    lemma_split_nonempty(value, FIELD_SEPARATOR);
    if c == FIELD_SEPARATOR {
        let after = before.push(Seq::empty());
        assert(after.drop_last() =~= before);
        assert(join_fields(after) =~= join_fields(before).push(','));
    } else {
        lemma_join_extend_last(before, c);
    }
}

/// Rejoining replaces every separator by a comma and leaves every other
/// character where it was; the fields keep their number and their order.
pub proof fn lemma_rejoined_replaces_separators(value: Seq<char>)
    ensures
        rejoined(value) == value.map_values(|c: char| rejoin_char(c)),
        rejoined(value).len() == value.len(),
        forall|i: int| 0 <= i < value.len() ==> #[trigger] rejoined(value)[i] == rejoin_char(value[i]),
        split_fields(value).len() == separator_count(value) + 1,
        !rejoined(value).contains(FIELD_SEPARATOR),
    decreases value.len(),
{
    let replace = |c: char| rejoin_char(c);
    let is_separator = |c: char| c == FIELD_SEPARATOR;
    if value.len() == 0 {
        assert(rejoined(value) =~= value.map_values(replace));
        assert(value.filter(is_separator) =~= Seq::empty()) by {
            reveal(Seq::filter);
        }
    } else {
        let shorter = value.drop_last();
        lemma_rejoined_replaces_separators(shorter);
        lemma_rejoined_push(shorter, value.last());
        assert(shorter.push(value.last()) =~= value);
        assert(rejoined(value) =~= value.map_values(replace));
        assert(value.filter(is_separator) == if value.last() == FIELD_SEPARATOR {
            shorter.filter(is_separator).push(value.last())
        } else {
            shorter.filter(is_separator)
        }) by {
            reveal(Seq::filter);
        }
    }
    assert(!rejoined(value).contains(FIELD_SEPARATOR)) by {
        if rejoined(value).contains(FIELD_SEPARATOR) {
            let i = choose|i: int| 0 <= i < rejoined(value).len() && rejoined(value)[i] == FIELD_SEPARATOR;
            assert(rejoined(value)[i] == rejoin_char(value[i]));
        }
    }
}

/// Fields without a comma come back when the rejoined value is split at
/// its commas: as many as there were, in the order they had, the empty ones
/// among them.
pub proof fn lemma_fields_come_back(value: Seq<char>)
    requires
        !value.contains(','),
    ensures
        split_on(rejoined(value), ',') == split_fields(value),
    decreases value.len(),
{
    if value.len() > 0 {
        let shorter = value.drop_last();
        let c = value.last();
        assert(!shorter.contains(',')) by {
            if shorter.contains(',') {
                let i = choose|i: int| 0 <= i < shorter.len() && shorter[i] == ',';
                assert(value[i] == ',');
            }
        }
        assert(c != ',') by {
            assert(value[value.len() - 1] == c);
        }
        lemma_fields_come_back(shorter);
        lemma_rejoined_push(shorter, c);
        assert(shorter.push(c) =~= value);
        assert(rejoined(value).drop_last() =~= rejoined(shorter));
        assert(rejoined(value).last() == rejoin_char(c));
    }
}

/// `String::push`: the string after the call is the string before it with
/// `c` at its end.
#[verifier::external_body]
fn push_char(s: &mut String, c: char)
    ensures
        final(s)@ == old(s)@.push(c),
{
    s.push(c);
}

/// Rewrites a packed value for a record: every separator becomes a comma.
pub fn rejoin_value(value: &str) -> (joined: String)
    ensures
        joined@ == rejoined(value@),
{
    let mut joined = String::new();
    for c in it: value.chars()
        invariant
            it.seq() == value@,
            joined@ == rejoined(value@.take(it.index())),
    {
        proof {
            lemma_rejoined_push(value@.take(it.index()), c);
            assert(value@.take(it.index() + 1) =~= value@.take(it.index()).push(c));
        }
        if c == FIELD_SEPARATOR {
            push_char(&mut joined, ',');
        } else {
            push_char(&mut joined, c);
        }
    }
    assert(value@.take(value@.len() as int) =~= value@);
    joined
}

/// One line of a record: the indentation, then the key and the value, each
/// in double quotes, with one space between them.
pub open spec fn quoted_line(indent: Seq<char>, key: Seq<char>, value: Seq<char>) -> Seq<char> {
    indent + "\""@ + key + "\" \""@ + value + "\"\n"@
}

/// Appends one record line to `out`.
pub fn push_line(out: &mut String, indent: &str, key: &str, value: &str)
    ensures
        final(out)@ == old(out)@ + quoted_line(indent@, key@, value@),
{
    out.append(indent);
    out.append("\"");
    out.append(key);
    out.append("\" \"");
    out.append(value);
    out.append("\"\n");
    assert(out@ =~= old(out)@ + quoted_line(indent@, key@, value@));
}

} // verus!
