//! The neuron page template: literal text interspersed with element
//! directives, parsed in one pass from source text.
//!
//! The `$` marker opens a directive; the directive runs to the first
//! `)`, and everything after it up to the next `$` is literal text kept
//! verbatim.

use vstd::prelude::*;
use vstd::string::StrSliceExecFns;

use crate::element::{
    spec_parse_element, spec_validate_element, Element, ElementModel,
    validate_element_against,
};
use crate::errors::{ArgumentError, ArgumentErrorModel, ParseError, ParseErrorModel};
use crate::text::{copy_str, find_char, lemma_find_characterization, spec_find};
use crate::values::{store_scopes_consistent, StoreModel, Values};

verus! {

/// Model of a [`NeuronTemplate`]: the leading literal text and the
/// ordered directives, each with the literal text that follows it.
#[verifier::ext_equal]
pub ghost struct TemplateModel {
    pub prefix: Seq<char>,
    pub segments: Seq<(ElementModel, Seq<char>)>,
}

/// Model of a sequence of owned segments.
pub open spec fn segments_model(segments: Seq<(Element, String)>) -> Seq<(ElementModel, Seq<char>)> {
    Seq::new(segments.len(), |i: int| (segments[i].0@, segments[i].1@))
}

/// What parsing one `$`-delimited part yields: a directive through the
/// first `)`, and the literal text after it.
pub open spec fn spec_parse_segment(part: Seq<char>) -> Result<
    (ElementModel, Seq<char>),
    ParseErrorModel,
> {
    match spec_find(part, ')') {
        None => Err(ParseErrorModel::Unterminated),
        Some(q) => if 0 <= q < part.len() {
            match spec_parse_element(part.take(q + 1)) {
                Ok(el) => Ok((el, part.skip(q + 1))),
                Err(e) => Err(e),
            }
        } else {
            Err(ParseErrorModel::Unterminated)
        },
    }
}

/// What parsing the text after the first `$` yields: one segment per
/// `$`-delimited part, stopped at the first parse error.
pub open spec fn spec_parse_segments(s: Seq<char>) -> Result<
    Seq<(ElementModel, Seq<char>)>,
    ParseErrorModel,
>
    decreases s.len(),
{
    match spec_find(s, '$') {
        None => match spec_parse_segment(s) {
            Ok(seg) => Ok(seq![seg]),
            Err(e) => Err(e),
        },
        Some(p) => if 0 <= p < s.len() {
            match spec_parse_segment(s.take(p)) {
                Ok(seg) => match spec_parse_segments(s.skip(p + 1)) {
                    Ok(segs) => Ok(seq![seg] + segs),
                    Err(e) => Err(e),
                },
                Err(e) => Err(e),
            }
        } else {
            match spec_parse_segment(s) {
                Ok(seg) => Ok(seq![seg]),
                Err(e) => Err(e),
            }
        },
    }
}

/// What parsing template source yields: the text before the first `$`
/// is the literal prefix; the rest parses into segments.
pub open spec fn spec_parse_template(src: Seq<char>) -> Result<TemplateModel, ParseErrorModel> {
    match spec_find(src, '$') {
        None => Ok(TemplateModel { prefix: src, segments: Seq::empty() }),
        Some(p) => if 0 <= p < src.len() {
            match spec_parse_segments(src.skip(p + 1)) {
                Ok(segments) => Ok(TemplateModel { prefix: src.take(p), segments }),
                Err(e) => Err(e),
            }
        } else {
            Ok(TemplateModel { prefix: src, segments: Seq::empty() })
        },
    }
}

/// The first validation failure among a template's elements, in order.
pub open spec fn spec_validate_segments(
    segments: Seq<(ElementModel, Seq<char>)>,
    store: StoreModel,
) -> Option<ArgumentErrorModel>
    decreases segments.len(),
{
    if segments.len() == 0 {
        None
    } else {
        match spec_validate_element(segments[0].0, store) {
            Some(e) => Some(e),
            None => spec_validate_segments(segments.drop_first(), store),
        }
    }
}

/// The validation protocol over a whole template: every element's
/// arguments resolve and fit, or the first failure in template order.
pub open spec fn spec_validate_template(t: TemplateModel, store: StoreModel) -> Option<
    ArgumentErrorModel,
> {
    spec_validate_segments(t.segments, store)
}

/// Validation fails exactly at the first failing element.
pub proof fn lemma_validate_segments_at(
    segments: Seq<(ElementModel, Seq<char>)>,
    store: StoreModel,
    i: int,
)
    requires
        0 <= i < segments.len(),
        forall|k: int|
            0 <= k < i ==> spec_validate_element((#[trigger] segments[k]).0, store) is None,
        spec_validate_element(segments[i].0, store) is Some,
    ensures
        spec_validate_segments(segments, store) == spec_validate_element(segments[i].0, store),
    decreases i,
{
    if i > 0 {
        assert(forall|k: int|
            0 <= k < segments.len() - 1 ==> (#[trigger] segments.drop_first()[k]) == segments[k
                + 1]);
        lemma_validate_segments_at(segments.drop_first(), store, i - 1);
    }
}

/// Where every element validates, the whole template validates.
pub proof fn lemma_validate_segments_all(
    segments: Seq<(ElementModel, Seq<char>)>,
    store: StoreModel,
)
    requires
        forall|k: int|
            0 <= k < segments.len() ==> spec_validate_element(
                (#[trigger] segments[k]).0,
                store,
            ) is None,
    ensures
        spec_validate_segments(segments, store) is None,
    decreases segments.len(),
{
    if segments.len() > 0 {
        assert(forall|k: int|
            0 <= k < segments.len() - 1 ==> (#[trigger] segments.drop_first()[k]) == segments[k
                + 1]);
        lemma_validate_segments_all(segments.drop_first(), store);
    }
}

/// Where the whole template validates, each element does.
pub proof fn lemma_validate_segments_each(
    segments: Seq<(ElementModel, Seq<char>)>,
    store: StoreModel,
    i: int,
)
    requires
        spec_validate_segments(segments, store) is None,
        0 <= i < segments.len(),
    ensures
        spec_validate_element(segments[i].0, store) is None,
    decreases i,
{
    if i > 0 {
        assert(forall|k: int|
            0 <= k < segments.len() - 1 ==> (#[trigger] segments.drop_first()[k]) == segments[k
                + 1]);
        lemma_validate_segments_each(segments.drop_first(), store, i - 1);
    }
}

/// The parsed neuron page template: a literal prefix and, for each
/// directive, the element with the literal text that follows it.
#[derive(Clone, Debug)]
pub struct NeuronTemplate {
    prefix: String,
    template: Vec<(Element, String)>,
}

impl View for NeuronTemplate {
    type V = TemplateModel;

    closed spec fn view(&self) -> TemplateModel {
        TemplateModel { prefix: self.prefix@, segments: segments_model(self.template@) }
    }
}

/// Parses one `$`-delimited part into a directive and its literal
/// suffix; see [`spec_parse_segment`].
fn parse_segment(part: &str) -> (r: Result<(Element, String), ParseError>)
    ensures
        match r {
            Ok(seg) => spec_parse_segment(part@) == Ok::<(ElementModel, Seq<char>), ParseErrorModel>(
                (seg.0@, seg.1@),
            ),
            Err(e) => spec_parse_segment(part@) == Err::<(ElementModel, Seq<char>), ParseErrorModel>(
                e@,
            ),
        },
{
    proof {
        lemma_find_characterization(part@, ')');
    }
    let q = match find_char(part, ')') {
        Some(q) => q,
        None => {
            return Err(ParseError::Unterminated);
        },
    };
    let len = part.unicode_len();
    let element_text = part.substring_char(0, q + 1);
    let suffix = part.substring_char(q + 1, len);
    match Element::parse(element_text) {
        Ok(el) => Ok((el, copy_str(suffix))),
        Err(e) => Err(e),
    }
}

/// Parses the text after the first `$`; see [`spec_parse_segments`].
#[verifier::loop_isolation(false)]
fn parse_segments(s: &str) -> (r: Result<Vec<(Element, String)>, ParseError>)
    ensures
        match r {
            Ok(segs) => spec_parse_segments(s@) == Ok::<
                Seq<(ElementModel, Seq<char>)>,
                ParseErrorModel,
            >(segments_model(segs@)),
            Err(e) => spec_parse_segments(s@) == Err::<
                Seq<(ElementModel, Seq<char>)>,
                ParseErrorModel,
            >(e@),
        },
    decreases s@.len(),
{
    proof {
        lemma_find_characterization(s@, '$');
    }
    match find_char(s, '$') {
        None => {
            let seg = match parse_segment(s) {
                Ok(seg) => seg,
                Err(e) => {
                    return Err(e);
                },
            };
            let mut segs: Vec<(Element, String)> = Vec::new();
            segs.push(seg);
            proof {
                assert(segments_model(segs@) =~= seq![(segs@[0].0@, segs@[0].1@)]);
            }
            Ok(segs)
        },
        Some(p) => {
            let len = s.unicode_len();
            let head = s.substring_char(0, p);
            let seg = match parse_segment(head) {
                Ok(seg) => seg,
                Err(e) => {
                    return Err(e);
                },
            };
            let rest = s.substring_char(p + 1, len);
            let mut tail = match parse_segments(rest) {
                Ok(segs) => segs,
                Err(e) => {
                    return Err(e);
                },
            };
            let ghost old_tail = tail@;
            let mut segs: Vec<(Element, String)> = Vec::new();
            segs.push(seg);
            segs.append(&mut tail);
            proof {
                let ghost expected = seq![(segs@[0].0@, segs@[0].1@)] + segments_model(old_tail);
                assert(segments_model(segs@).len() == expected.len());
                assert forall|i: int|
                    0 <= i < segments_model(segs@).len() implies segments_model(segs@)[i]
                    == expected[i] by {
                    if i > 0 {
                        assert(segs@[i] == old_tail[i - 1]);
                        assert(segments_model(old_tail)[i - 1] == (old_tail[i - 1].0@, old_tail[i
                            - 1].1@));
                    }
                }
                assert(segments_model(segs@) =~= expected);
            }
            Ok(segs)
        },
    }
}

impl NeuronTemplate {
    /// Reassembles a template from its parts, for the snapshot codec.
    pub(crate) fn from_parts(prefix: String, template: Vec<(Element, String)>) -> (r:
        NeuronTemplate)
        ensures
            r@ == (TemplateModel { prefix: prefix@, segments: segments_model(template@) }),
    {
        NeuronTemplate { prefix, template }
    }

    /// Parses template source text: literal text with `$`-marked
    /// directives, each running to its first `)`.
    pub fn parse(template_code: &str) -> (r: Result<NeuronTemplate, ParseError>)
        ensures
            match r {
                Ok(t) => spec_parse_template(template_code@) == Ok::<
                    TemplateModel,
                    ParseErrorModel,
                >(t@),
                Err(e) => spec_parse_template(template_code@) == Err::<
                    TemplateModel,
                    ParseErrorModel,
                >(e@),
            },
    {
        proof {
            lemma_find_characterization(template_code@, '$');
        }
        match find_char(template_code, '$') {
            None => {
                let t = NeuronTemplate { prefix: copy_str(template_code), template: Vec::new() };
                proof {
                    assert(t@.segments =~= Seq::<(ElementModel, Seq<char>)>::empty());
                }
                Ok(t)
            },
            Some(p) => {
                let len = template_code.unicode_len();
                let prefix = template_code.substring_char(0, p);
                let rest = template_code.substring_char(p + 1, len);
                match parse_segments(rest) {
                    Ok(template) => Ok(
                        NeuronTemplate { prefix: copy_str(prefix), template },
                    ),
                    Err(e) => Err(e),
                }
            },
        }
    }

    /// The number of directives.
    pub fn segment_count(&self) -> (n: usize)
        ensures
            n == self@.segments.len(),
    {
        self.template.len()
    }

    /// The literal text before the first directive.
    pub fn prefix(&self) -> (r: &String)
        ensures
            r@ == self@.prefix,
    {
        &self.prefix
    }

    /// The directive at a position with its literal suffix.
    pub fn segment_at(&self, i: usize) -> (r: (&Element, &String))
        requires
            i < self@.segments.len(),
        ensures
            r.0@ == self@.segments[i as int].0,
            r.1@ == self@.segments[i as int].1,
    {
        let seg = &self.template[i];
        (&seg.0, &seg.1)
    }

    /// Validates every directive's arguments against a store, in
    /// template order, reporting the first failure; see
    /// [`spec_validate_template`]. Validation is idempotent: it reads
    /// the template and store and changes nothing.
    pub(crate) fn validate_against(&self, values: &Values) -> (r: Result<(), ArgumentError>)
        requires
            store_scopes_consistent(values@),
        ensures
            match r {
                Ok(()) => spec_validate_template(self@, values@) is None,
                Err(e) => spec_validate_template(self@, values@) == Some(e@),
            },
    {
        let n = self.template.len();
        let mut i: usize = 0;
        while i < n
            invariant
                0 <= i <= n,
                n == self@.segments.len(),
                store_scopes_consistent(values@),
                forall|k: int|
                    0 <= k < i ==> spec_validate_element(
                        (#[trigger] self@.segments[k]).0,
                        values@,
                    ) is None,
            decreases n - i,
        {
            let seg = &self.template[i];
            match validate_element_against(&seg.0, values) {
                Ok(()) => {},
                Err(e) => {
                    proof {
                        lemma_validate_segments_at(self@.segments, values@, i as int);
                    }
                    return Err(e);
                },
            }
            i = i + 1;
        }
        proof {
            lemma_validate_segments_all(self@.segments, values@);
        }
        Ok(())
    }
}

} // verus!
