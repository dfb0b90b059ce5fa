//! What findings say of the contents of a file, as JSON texts in order.

use serde::ser::{SerializeStruct, Serializer};
use vstd::prelude::*;
use vstd::relations::sorted_by;

use crate::findings::{contents_of, placeless};
use crate::models::{FindingView, OpenGrepFinding};
use crate::numbers::{decimal, hex_digit, lemma_decimal_injective, lemma_decimal_shape};
use crate::order::{lemma_mapped_multisets, lemma_text_order, sort, text_le, Ordered};
use crate::text::{text_equal, views};

verus! {

/// The failures of the JSON writer.
#[verifier::external_type_specification]
#[verifier::external_body]
pub struct ExJsonError(serde_json::Error);

/// A character as it stands in a JSON string.
pub open spec fn escape(c: char) -> Seq<char> {
    let code = c as int;
    if c == '"' || c == '\\' {
        seq!['\\', c]
    } else if code == 8 {
        seq!['\\', 'b']
    } else if code == 9 {
        seq!['\\', 't']
    } else if code == 10 {
        seq!['\\', 'n']
    } else if code == 12 {
        seq!['\\', 'f']
    } else if code == 13 {
        seq!['\\', 'r']
    } else if code < 32 {
        let high = hex_digit((code / 16) as nat) as char;
        let low = hex_digit((code % 16) as nat) as char;
        seq!['\\', 'u', '0', '0', high, low]
    } else {
        seq![c]
    }
}

/// A text as it stands in a JSON string.
pub open spec fn escaped(text: Seq<char>) -> Seq<char>
    decreases text.len(),
{
    if text.len() == 0 {
        Seq::empty()
    } else {
        escape(text[0]) + escaped(text.drop_first())
    }
}

/// The JSON string that stands for a text.
pub open spec fn quoted(text: Seq<char>) -> Seq<char> {
    seq!['"'] + escaped(text) + seq!['"']
}

/// The JSON object that stands for a finding: its fields in the order of their declaration, and no
/// white space.
pub open spec fn finding_text(finding: FindingView) -> Seq<char> {
    let rest = ",\"inspector_url\":"@ + quoted(finding.inspector_url) + "}"@;
    let rest = ",\"execution_context\":"@ + quoted(finding.execution_context) + rest;
    let rest = ",\"confidence\":"@ + quoted(finding.confidence) + rest;
    let rest = ",\"evidence\":"@ + quoted(finding.evidence) + rest;
    let rest = ",\"severity\":"@ + quoted(finding.severity) + rest;
    let rest = ",\"message\":"@ + quoted(finding.message) + rest;
    let rest = ",\"end_line\":"@ + decimal(finding.end_line as nat) + rest;
    let rest = ",\"start_line\":"@ + decimal(finding.start_line as nat) + rest;
    let rest = ",\"path\":"@ + quoted(finding.path) + rest;
    "{\"rule_id\":"@ + quoted(finding.rule_id) + rest
}

/// `serde_json::Serializer` writes a finding as a JSON object. It is given the fields one by one,
/// through `serde::ser::SerializeStruct`, and a buffer in memory, so that it does not fail: it
/// writes texts as JSON strings, numbers in decimal, and no white space.
#[verifier::external_body]
fn write_finding(finding: &OpenGrepFinding) -> (result: Result<String, serde_json::Error>)
    ensures
        result is Ok,
        result->Ok_0@ == finding_text(finding@),
{
    let mut out = Vec::new();
    let mut serializer = serde_json::Serializer::new(&mut out);
    let mut fields = serializer.serialize_struct("OpenGrepFinding", 10)?;
    fields.serialize_field("rule_id", &finding.rule_id)?;
    fields.serialize_field("path", &finding.path)?;
    fields.serialize_field("start_line", &finding.start_line)?;
    fields.serialize_field("end_line", &finding.end_line)?;
    fields.serialize_field("message", &finding.message)?;
    fields.serialize_field("severity", &finding.severity)?;
    fields.serialize_field("evidence", &finding.evidence)?;
    fields.serialize_field("confidence", &finding.confidence)?;
    fields.serialize_field("execution_context", &finding.execution_context)?;
    fields.serialize_field("inspector_url", &finding.inspector_url)?;
    fields.end()?;
    Ok(String::from_utf8_lossy(&out).into_owned())
}

/// The JSON texts of findings without their places.
pub open spec fn content_texts(findings: Seq<FindingView>) -> Seq<Seq<char>> {
    Seq::new(findings.len(), |i: int| finding_text(placeless(findings[i])))
}

/// Whether texts are in ascending order.
pub open spec fn rising(texts: Seq<Seq<char>>) -> bool {
    sorted_by(texts, |left: Seq<char>, right: Seq<char>| text_le(left, right))
}

/// Findings without their places, as JSON texts in ascending order.
pub fn content_findings(findings: &[OpenGrepFinding]) -> (values: Vec<String>)
    ensures
        values@.len() == findings@.len(),
        views(values@).to_multiset() == content_texts(views(findings@)).to_multiset(),
        rising(views(values@)),
{
    let mut texts: Vec<String> = Vec::new();
    let mut i: usize = 0;
    while i < findings.len()
        invariant
            i <= findings@.len(),
            texts@.len() == i,
            forall|j: int|
                0 <= j < i ==> (#[trigger] texts@[j])@ == finding_text(
                    placeless(findings@[j]@),
                ),
        decreases findings@.len() - i,
    {
        let mut finding = findings[i].clone();
        finding.path = String::new();
        finding.inspector_url = String::new();
        assert(finding@ == placeless(findings@[i as int]@));
        match write_finding(&finding) {
            Ok(text) => texts.push(text),
            Err(_) => {
                assert(false);
            },
        }
        i += 1;
    }
    let ghost unsorted = texts@;
    assert(views(unsorted) =~= content_texts(views(findings@)));
    let values = sort(texts);
    proof {
        let f = |text: String| text@;
        lemma_mapped_multisets(values@, unsorted, f);
        assert(values@.map_values(f) =~= views(values@));
        assert(unsorted.map_values(f) =~= views(unsorted));
        let leq = |left: Seq<char>, right: Seq<char>| text_le(left, right);
        assert forall|i: int, j: int| 0 <= i < j < views(values@).len() implies #[trigger] leq(
            views(values@)[i],
            views(values@)[j],
        ) by {
            assert(values@[i].at_or_before(values@[j]));
        }
    }
    values
}

proof fn lemma_escape(a: char, x: Seq<char>, b: char, y: Seq<char>)
    requires
        escape(a) + x == escape(b) + y,
    ensures
        a == b,
        x == y,
{
    let s = escape(a) + x;
    let t = escape(b) + y;
    assert(s[0] == escape(a)[0] && t[0] == escape(b)[0]);
    if s[0] == '\\' {
        assert(s[1] == escape(a)[1] && t[1] == escape(b)[1]);
        if s[1] == 'u' {
            assert(s[4] == escape(a)[4] && t[4] == escape(b)[4]);
            assert(s[5] == escape(a)[5] && t[5] == escape(b)[5]);
            assert(a as int / 16 == b as int / 16);
            assert(a as int % 16 == b as int % 16);
        }
    }
    assert(a == b);
    assert(x =~= s.skip(escape(a).len() as int));
    assert(y =~= t.skip(escape(b).len() as int));
}

proof fn lemma_escaped(a: Seq<char>, x: Seq<char>, b: Seq<char>, y: Seq<char>)
    requires
        escaped(a) + seq!['"'] + x == escaped(b) + seq!['"'] + y,
    ensures
        a == b,
        x == y,
    decreases a.len(),
{
    let left = escaped(a) + seq!['"'] + x;
    let right = escaped(b) + seq!['"'] + y;
    if a.len() == 0 && b.len() == 0 {
        assert(a =~= b);
        assert(x =~= left.skip(1));
        assert(y =~= right.skip(1));
    } else if a.len() == 0 {
        assert(left[0] == '"');
        assert(right[0] == escape(b[0])[0]);
    } else if b.len() == 0 {
        assert(right[0] == '"');
        assert(left[0] == escape(a[0])[0]);
    } else {
        let more = escaped(a.drop_first()) + seq!['"'] + x;
        let other = escaped(b.drop_first()) + seq!['"'] + y;
        assert(left =~= escape(a[0]) + more);
        assert(right =~= escape(b[0]) + other);
        lemma_escape(a[0], more, b[0], other);
        lemma_escaped(a.drop_first(), x, b.drop_first(), y);
        assert(a =~= seq![a[0]] + a.drop_first());
        assert(b =~= seq![b[0]] + b.drop_first());
    }
}

/// A label with a text behind it can be read back.
proof fn lemma_text_member(
    label: Seq<char>,
    a: Seq<char>,
    x: Seq<char>,
    b: Seq<char>,
    y: Seq<char>,
)
    requires
        label + quoted(a) + x == label + quoted(b) + y,
    ensures
        a == b,
        x == y,
{
    let left = label + quoted(a) + x;
    let right = label + quoted(b) + y;
    let n = label.len() + 1;
    assert(left.skip(n as int) =~= escaped(a) + seq!['"'] + x);
    assert(right.skip(n as int) =~= escaped(b) + seq!['"'] + y);
    lemma_escaped(a, x, b, y);
}

/// A label with a number behind it can be read back, where a comma follows.
proof fn lemma_number_member(label: Seq<char>, a: nat, x: Seq<char>, b: nat, y: Seq<char>)
    requires
        label + decimal(a) + x == label + decimal(b) + y,
        x.len() > 0,
        x[0] == ',',
        y.len() > 0,
        y[0] == ',',
    ensures
        a == b,
        x == y,
{
    let left = label + decimal(a) + x;
    let right = label + decimal(b) + y;
    let n = label.len() as int;
    let l = decimal(a);
    let r = decimal(b);
    lemma_decimal_shape(a);
    lemma_decimal_shape(b);
    assert(forall|i: int| 0 <= i < l.len() ==> left[n + i] == l[i]);
    assert(forall|i: int| 0 <= i < r.len() ==> right[n + i] == r[i]);
    assert(left[n + l.len()] == ',');
    assert(right[n + r.len()] == ',');
    assert(l.len() == r.len()) by {
        if l.len() < r.len() {
            assert(right[n + l.len()] == r[l.len() as int]);
        } else if r.len() < l.len() {
            assert(left[n + r.len()] == l[r.len() as int]);
        }
    }
    assert(l =~= r) by {
        assert forall|i: int| 0 <= i < l.len() implies l[i] == r[i] by {
            assert(left[n + i] == right[n + i]);
        }
    }
    lemma_decimal_injective(a, b);
    assert(x =~= left.skip(n + l.len()));
    assert(y =~= right.skip(n + r.len()));
}

proof fn lemma_starts_with_comma(label: Seq<char>, value: Seq<char>, rest: Seq<char>)
    requires
        label.len() > 0,
    ensures
        (label + value + rest).len() > 0,
        (label + value + rest)[0] == label[0],
{
}

/// Different findings have different JSON texts.
pub proof fn law_finding_texts_are_distinct(left: FindingView, right: FindingView)
    requires
        finding_text(left) == finding_text(right),
    ensures
        left == right,
{
    let l9 = ",\"inspector_url\":"@ + quoted(left.inspector_url) + "}"@;
    let l8 = ",\"execution_context\":"@ + quoted(left.execution_context) + l9;
    let l7 = ",\"confidence\":"@ + quoted(left.confidence) + l8;
    let l6 = ",\"evidence\":"@ + quoted(left.evidence) + l7;
    let l5 = ",\"severity\":"@ + quoted(left.severity) + l6;
    let l4 = ",\"message\":"@ + quoted(left.message) + l5;
    let l3 = ",\"end_line\":"@ + decimal(left.end_line as nat) + l4;
    let l2 = ",\"start_line\":"@ + decimal(left.start_line as nat) + l3;
    let l1 = ",\"path\":"@ + quoted(left.path) + l2;
    let r9 = ",\"inspector_url\":"@ + quoted(right.inspector_url) + "}"@;
    let r8 = ",\"execution_context\":"@ + quoted(right.execution_context) + r9;
    let r7 = ",\"confidence\":"@ + quoted(right.confidence) + r8;
    let r6 = ",\"evidence\":"@ + quoted(right.evidence) + r7;
    let r5 = ",\"severity\":"@ + quoted(right.severity) + r6;
    let r4 = ",\"message\":"@ + quoted(right.message) + r5;
    let r3 = ",\"end_line\":"@ + decimal(right.end_line as nat) + r4;
    let r2 = ",\"start_line\":"@ + decimal(right.start_line as nat) + r3;
    let r1 = ",\"path\":"@ + quoted(right.path) + r2;
    reveal_strlit(",\"end_line\":");
    reveal_strlit(",\"message\":");
    lemma_text_member("{\"rule_id\":"@, left.rule_id, l1, right.rule_id, r1);
    lemma_text_member(",\"path\":"@, left.path, l2, right.path, r2);
    lemma_starts_with_comma(",\"end_line\":"@, decimal(left.end_line as nat), l4);
    lemma_starts_with_comma(",\"end_line\":"@, decimal(right.end_line as nat), r4);
    lemma_number_member(
        ",\"start_line\":"@,
        left.start_line as nat,
        l3,
        right.start_line as nat,
        r3,
    );
    lemma_starts_with_comma(",\"message\":"@, quoted(left.message), l5);
    lemma_starts_with_comma(",\"message\":"@, quoted(right.message), r5);
    lemma_number_member(
        ",\"end_line\":"@,
        left.end_line as nat,
        l4,
        right.end_line as nat,
        r4,
    );
    lemma_text_member(",\"message\":"@, left.message, l5, right.message, r5);
    lemma_text_member(",\"severity\":"@, left.severity, l6, right.severity, r6);
    lemma_text_member(",\"evidence\":"@, left.evidence, l7, right.evidence, r7);
    lemma_text_member(",\"confidence\":"@, left.confidence, l8, right.confidence, r8);
    lemma_text_member(
        ",\"execution_context\":"@,
        left.execution_context,
        l9,
        right.execution_context,
        r9,
    );
    lemma_text_member(
        ",\"inspector_url\":"@,
        left.inspector_url,
        "}"@,
        right.inspector_url,
        "}"@,
    );
}

/// Lists of texts in ascending order that stand for findings without their places are equal just
/// where the findings have the same contents, each as often, in whatever order and places.
pub proof fn law_content_findings_are_canonical(
    left: Seq<FindingView>,
    left_values: Seq<Seq<char>>,
    right: Seq<FindingView>,
    right_values: Seq<Seq<char>>,
)
    requires
        left_values.to_multiset() == content_texts(left).to_multiset(),
        right_values.to_multiset() == content_texts(right).to_multiset(),
        rising(left_values),
        rising(right_values),
    ensures
        left_values == right_values <==> contents_of(left) == contents_of(right),
{
    let bare_left = Seq::new(left.len(), |i: int| placeless(left[i]));
    let bare_right = Seq::new(right.len(), |i: int| placeless(right[i]));
    let write = |finding: FindingView| finding_text(finding);
    let read = |text: Seq<char>| choose|finding: FindingView| #[trigger] finding_text(finding) == text;
    assert(content_texts(left) =~= bare_left.map_values(write));
    assert(content_texts(right) =~= bare_right.map_values(write));
    assert forall|finding: FindingView| #[trigger] read(finding_text(finding)) == finding by {
        law_finding_texts_are_distinct(read(finding_text(finding)), finding);
    }
    assert(bare_left.map_values(write).map_values(read) =~= bare_left);
    assert(bare_right.map_values(write).map_values(read) =~= bare_right);
    if left_values == right_values {
        lemma_mapped_multisets(content_texts(left), content_texts(right), read);
    }
    if contents_of(left) == contents_of(right) {
        lemma_mapped_multisets(bare_left, bare_right, write);
        lemma_text_order();
        vstd::seq_lib::lemma_sorted_unique(
            left_values,
            right_values,
            |left: Seq<char>, right: Seq<char>| text_le(left, right),
        );
    }
}

/// Whether two lists of findings differ in nothing but the places and the order of the findings.
pub fn same_content(first: &[OpenGrepFinding], second: &[OpenGrepFinding]) -> (same: bool)
    ensures
        same == (contents_of(views(first@)) == contents_of(views(second@))),
{
    let left = content_findings(first);
    let right = content_findings(second);
    proof {
        law_content_findings_are_canonical(
            views(first@),
            views(left@),
            views(second@),
            views(right@),
        );
    }
    if left.len() != right.len() {
        assert(views(left@).len() != views(right@).len());
        return false;
    }
    let mut i: usize = 0;
    while i < left.len()
        invariant
            i <= left@.len(),
            left@.len() == right@.len(),
            forall|j: int| 0 <= j < i ==> (#[trigger] left@[j])@ == right@[j]@,
            views(left@) == views(right@) <==> contents_of(views(first@)) == contents_of(
                views(second@),
            ),
        decreases left@.len() - i,
    {
        if !text_equal(left[i].as_str(), right[i].as_str()) {
            assert(views(left@)[i as int] != views(right@)[i as int]);
            return false;
        }
        i += 1;
    }
    assert(views(left@) =~= views(right@));
    true
}

} // verus!
