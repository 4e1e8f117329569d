//! Candidates: the addresses at which a node may be reached, and which of them are used.

use vstd::prelude::*;
use crate::addr::{IpAddr, Prefix};

verus! {

/// The octets of the address in a candidate line; none where the line is no candidate.
pub uninterp spec fn candidate_octets(line: Seq<char>) -> Option<Seq<u8>>;

/// `IceCandidate::from_sdp` of the crate `rustrtc`: of the candidate in the line, the IP address.
#[verifier::external_body]
fn parse_candidate(line: &str) -> (result: Option<IpAddr>)
    ensures
        match result {
            Some(ip) => candidate_octets(line@) == Some(ip.octets()),
            None => candidate_octets(line@) is None,
        },
{
    let candidate = rustrtc::IceCandidate::from_sdp(line).ok()?;
    Some(match cidr::IpCidr::new_host(candidate.address.ip()) {
        cidr::IpCidr::V4(host) => IpAddr::V4(host.first_address().octets()),
        cidr::IpCidr::V6(host) => IpAddr::V6(host.first_address().octets()),
    })
}

/// An attribute of a session description.
#[derive(Clone, Debug)]
pub struct SdpAttribute {
    pub key: String,
    pub value: Option<String>,
}

/// An attribute of a session description, as characters.
pub type AttributeText = (Seq<char>, Option<Seq<char>>);

/// The attributes of the media sections of a session description, in order; none where the text is
/// no session description. Whether it is an offer or an answer is told with it.
pub uninterp spec fn described_sections(offer: bool, sdp: Seq<char>) -> Option<
    Seq<Seq<(Seq<char>, Option<Seq<char>>)>>,
>;

/// `SessionDescription::parse` of the crate `rustrtc`, for an offer or an answer: of the session
/// description in the text, the attributes of each media section.
#[verifier::external_body]
fn parse_description(offer: bool, sdp: &str) -> (result: Option<Vec<Vec<SdpAttribute>>>)
    ensures
        match result {
            Some(sections) => described_sections(offer, sdp@) == Some(description_text(sections@)),
            None => described_sections(offer, sdp@) is None,
        },
{
    let kind = match offer {
        true => rustrtc::SdpType::Offer,
        false => rustrtc::SdpType::Answer,
    };
    let description = rustrtc::SessionDescription::parse(kind, sdp).ok()?;
    let sections = description.media_sections.into_iter().map(|section| section.attributes);
    let convert = |a: rustrtc::Attribute| SdpAttribute { key: a.key, value: a.value };
    Some(sections.map(|attributes| attributes.into_iter().map(convert).collect()).collect())
}

/// A candidate of this node.
pub struct Candidate {
    pub ip: IpAddr,
    pub line: String,
}

/// A candidate with the address of these octets is used: it is not in the prefix, if there is one.
pub open spec fn is_allowed(octets: Seq<u8>, prefix: Option<Prefix>) -> bool {
    prefix matches Some(p) ==> !p.includes(octets)
}

/// A candidate line is used: it is a candidate, and its address is not in the prefix.
pub open spec fn line_allowed(line: Seq<char>, prefix: Option<Prefix>) -> bool {
    match candidate_octets(line) {
        Some(octets) => is_allowed(octets, prefix),
        None => false,
    }
}

/// An attribute stays in a session description: it is no candidate line, or none with an address in
/// the prefix.
pub open spec fn attribute_stays(key: Seq<char>, value: Option<Seq<char>>, prefix: Option<Prefix>)
    -> bool {
    key != "candidate"@ || match value {
        None => true,
        Some(line) => candidate_octets(line) is None || line_allowed(line, prefix),
    }
}

/// The candidate lines that are used, in order.
pub open spec fn allowed_lines(lines: Seq<String>, prefix: Option<Prefix>) -> Seq<String>
    decreases lines.len(),
{
    if lines.len() == 0 {
        Seq::empty()
    } else {
        let before = allowed_lines(lines.drop_last(), prefix);
        if line_allowed(lines.last()@, prefix) {
            before.push(lines.last())
        } else {
            before
        }
    }
}

/// The lines of the candidates that are used, in order.
pub open spec fn offered_lines(candidates: Seq<Candidate>, prefix: Option<Prefix>) -> Seq<String>
    decreases candidates.len(),
{
    if candidates.len() == 0 {
        Seq::empty()
    } else {
        let before = offered_lines(candidates.drop_last(), prefix);
        if is_allowed(candidates.last().ip.octets(), prefix) {
            before.push(candidates.last().line)
        } else {
            before
        }
    }
}

/// The value of an attribute as characters.
pub open spec fn value_of(attribute: SdpAttribute) -> Option<Seq<char>> {
    match attribute.value {
        Some(value) => Some(value@),
        None => None,
    }
}

/// An attribute as characters.
pub open spec fn attribute_text(attribute: SdpAttribute) -> AttributeText {
    (attribute.key@, value_of(attribute))
}

/// The attributes of a section as characters.
pub open spec fn section_text(attributes: Seq<SdpAttribute>) -> Seq<AttributeText> {
    Seq::new(attributes.len(), |i: int| attribute_text(attributes[i]))
}

/// The attributes of the sections of a session description as characters.
pub open spec fn description_text(sections: Seq<Vec<SdpAttribute>>) -> Seq<Seq<AttributeText>> {
    Seq::new(sections.len(), |i: int| section_text(sections[i]@))
}

/// What is left of the sections of a session description; none where the text is none.
pub open spec fn filtered_sections(offer: bool, sdp: Seq<char>, prefix: Option<Prefix>) -> Option<
    Seq<Seq<AttributeText>>,
> {
    match described_sections(offer, sdp) {
        Some(sections) => Some(
            Seq::new(sections.len(), |i: int| staying(sections[i], prefix)),
        ),
        None => None,
    }
}

/// The attributes that stay, in order.
pub open spec fn staying(attributes: Seq<AttributeText>, prefix: Option<Prefix>) -> Seq<
    AttributeText,
>
    decreases attributes.len(),
{
    if attributes.len() == 0 {
        Seq::empty()
    } else {
        let before = staying(attributes.drop_last(), prefix);
        let (key, value) = attributes.last();
        if attribute_stays(key, value, prefix) {
            before.push(attributes.last())
        } else {
            before
        }
    }
}

/// The attributes without the candidate lines, in order.
pub open spec fn without_candidates(attributes: Seq<AttributeText>) -> Seq<AttributeText>
    decreases attributes.len(),
{
    if attributes.len() == 0 {
        Seq::empty()
    } else {
        let before = without_candidates(attributes.drop_last());
        let (key, value) = attributes.last();
        if key != "candidate"@ {
            before.push(attributes.last())
        } else {
            before
        }
    }
}

/// Whether a candidate with the address `ip` is used.
pub fn check_candidate(ip: &IpAddr, prefix: &Option<Prefix>) -> (result: bool)
    requires
        prefix matches Some(p) ==> p.wf(),
    ensures
        result == is_allowed(ip.octets(), *prefix),
{
    match prefix {
        Some(p) => !p.contains(ip),
        None => true,
    }
}

/// Whether a line is a candidate, and if so, whether it is used.
pub fn check_line(line: &str, prefix: &Option<Prefix>) -> (result: Option<bool>)
    requires
        prefix matches Some(p) ==> p.wf(),
    ensures
        result is None <==> candidate_octets(line@) is None,
        result matches Some(allowed) ==> allowed == line_allowed(line@, *prefix),
{
    match parse_candidate(line) {
        Some(ip) => Some(check_candidate(&ip, prefix)),
        None => None,
    }
}

/// Those of the candidate lines of a peer that are used.
pub fn add_candidates(lines: &Vec<String>, prefix: &Option<Prefix>) -> (used: Vec<String>)
    requires
        prefix matches Some(p) ==> p.wf(),
    ensures
        used@ == allowed_lines(lines@, *prefix),
{
    let mut used: Vec<String> = Vec::new();
    let mut i: usize = 0;
    while i < lines.len()
        invariant
            i <= lines.len(),
            prefix matches Some(p) ==> p.wf(),
            used@ == allowed_lines(lines@.take(i as int), *prefix),
        decreases lines.len() - i,
    {
        proof {
            assert(lines@.take(i + 1).drop_last() =~= lines@.take(i as int));
            assert(lines@.take(i + 1).last() == lines@[i as int]);
        }
        match check_line(lines[i].as_str(), prefix) {
            Some(true) => {
                used.push(lines[i].clone());
            },
            _ => {},
        }
        i += 1;
    }
    proof {
        assert(lines@.take(lines.len() as int) =~= lines@);
    }
    used
}

/// The lines of those candidates of this node that peers are told.
pub fn gather(candidates: &Vec<Candidate>, prefix: &Option<Prefix>) -> (lines: Vec<String>)
    requires
        prefix matches Some(p) ==> p.wf(),
    ensures
        lines@ == offered_lines(candidates@, *prefix),
{
    let mut lines: Vec<String> = Vec::new();
    let mut i: usize = 0;
    while i < candidates.len()
        invariant
            i <= candidates.len(),
            prefix matches Some(p) ==> p.wf(),
            lines@ == offered_lines(candidates@.take(i as int), *prefix),
        decreases candidates.len() - i,
    {
        proof {
            assert(candidates@.take(i + 1).drop_last() =~= candidates@.take(i as int));
            assert(candidates@.take(i + 1).last() == candidates@[i as int]);
        }
        if check_candidate(&candidates[i].ip, prefix) {
            lines.push(candidates[i].line.clone());
        }
        i += 1;
    }
    proof {
        assert(candidates@.take(candidates.len() as int) =~= candidates@);
    }
    lines
}

/// A copy of an attribute.
fn copy_attribute(attribute: &SdpAttribute) -> (result: SdpAttribute)
    ensures
        result == *attribute,
{
    SdpAttribute {
        key: attribute.key.clone(),
        value: match &attribute.value {
            Some(value) => Some(value.clone()),
            None => None,
        },
    }
}

/// Whether the key of an attribute is that of a candidate line.
fn is_candidate(attribute: &SdpAttribute) -> (result: bool)
    ensures
        result == (attribute.key@ == "candidate"@),
{
    attribute.key == "candidate".to_owned()
}

/// Takes the candidate lines with an address in the prefix out of the attributes of a section of a
/// session description.
pub fn filter_candidate(attributes: &Vec<SdpAttribute>, prefix: &Option<Prefix>) -> (result: Vec<
    SdpAttribute,
>)
    requires
        prefix matches Some(p) ==> p.wf(),
    ensures
        section_text(result@) == staying(section_text(attributes@), *prefix),
{
    let mut result: Vec<SdpAttribute> = Vec::new();
    let mut i: usize = 0;
    let ghost texts = section_text(attributes@);
    proof {
        assert(section_text(result@) =~= Seq::<AttributeText>::empty());
        assert(texts.take(0) =~= Seq::<AttributeText>::empty());
    }
    while i < attributes.len()
        invariant
            i <= attributes.len(),
            prefix matches Some(p) ==> p.wf(),
            texts == section_text(attributes@),
            section_text(result@) == staying(texts.take(i as int), *prefix),
        decreases attributes.len() - i,
    {
        let ghost before = result@;
        proof {
            assert(texts.take(i + 1).drop_last() =~= texts.take(i as int));
            assert(texts.take(i + 1).last() == attribute_text(attributes@[i as int]));
        }
        let attribute = &attributes[i];
        let stays = if !is_candidate(attribute) {
            true
        } else {
            match &attribute.value {
                Some(value) => match check_line(value.as_str(), prefix) {
                    Some(allowed) => allowed,
                    None => true,
                },
                None => true,
            }
        };
        if stays {
            result.push(copy_attribute(attribute));
            assert(section_text(result@) =~= section_text(before).push(
                attribute_text(attributes@[i as int]),
            ));
        }
        i += 1;
    }
    proof {
        assert(texts.take(attributes.len() as int) =~= texts);
    }
    result
}

/// Reads a session description, and takes the candidate lines with an address in the prefix out of
/// its sections; none where the text is no session description.
pub fn filter_description(offer: bool, sdp: &str, prefix: &Option<Prefix>) -> (result: Option<
    Vec<Vec<SdpAttribute>>,
>)
    requires
        prefix matches Some(p) ==> p.wf(),
    ensures
        match result {
            Some(sections) => filtered_sections(offer, sdp@, *prefix) == Some(
                description_text(sections@),
            ),
            None => described_sections(offer, sdp@) is None,
        },
{
    match parse_description(offer, sdp) {
        Some(sections) => Some(filter_sections(&sections, prefix)),
        None => None,
    }
}

/// Takes the candidate lines with an address in the prefix out of the sections of a session
/// description.
pub fn filter_sections(sections: &Vec<Vec<SdpAttribute>>, prefix: &Option<Prefix>) -> (result: Vec<
    Vec<SdpAttribute>,
>)
    requires
        prefix matches Some(p) ==> p.wf(),
    ensures
        description_text(result@) == Seq::new(
            sections@.len(),
            |i: int| staying(section_text(sections@[i]@), *prefix),
        ),
{
    let mut result: Vec<Vec<SdpAttribute>> = Vec::new();
    let mut i: usize = 0;
    while i < sections.len()
        invariant
            i <= sections.len(),
            result.len() == i,
            prefix matches Some(p) ==> p.wf(),
            forall|j: int|
                0 <= j < i ==> section_text((#[trigger] result[j])@) == staying(
                    section_text(sections@[j]@),
                    *prefix,
                ),
        decreases sections.len() - i,
    {
        result.push(filter_candidate(&sections[i], prefix));
        i += 1;
    }
    assert(description_text(result@) =~= Seq::new(
        sections@.len(),
        |i: int| staying(section_text(sections@[i]@), *prefix),
    ));
    result
}

/// Whether a text is a session description.
pub fn check_description(offer: bool, sdp: &str) -> (result: bool)
    ensures
        result == described_sections(offer, sdp@) is Some,
{
    parse_description(offer, sdp).is_some()
}

/// Takes all candidate lines out of the attributes of a section of a session description.
pub fn clear_candidates(attributes: &Vec<SdpAttribute>) -> (result: Vec<SdpAttribute>)
    ensures
        section_text(result@) == without_candidates(section_text(attributes@)),
{
    let mut result: Vec<SdpAttribute> = Vec::new();
    let mut i: usize = 0;
    let ghost texts = section_text(attributes@);
    proof {
        assert(section_text(result@) =~= Seq::<AttributeText>::empty());
        assert(texts.take(0) =~= Seq::<AttributeText>::empty());
    }
    while i < attributes.len()
        invariant
            i <= attributes.len(),
            texts == section_text(attributes@),
            section_text(result@) == without_candidates(texts.take(i as int)),
        decreases attributes.len() - i,
    {
        let ghost before = result@;
        proof {
            assert(texts.take(i + 1).drop_last() =~= texts.take(i as int));
            assert(texts.take(i + 1).last() == attribute_text(attributes@[i as int]));
        }
        let attribute = &attributes[i];
        if !is_candidate(attribute) {
            result.push(copy_attribute(attribute));
            assert(section_text(result@) =~= section_text(before).push(
                attribute_text(attributes@[i as int]),
            ));
        }
        i += 1;
    }
    proof {
        assert(texts.take(attributes.len() as int) =~= texts);
    }
    result
}

/// Without a prefix every candidate is used.
pub proof fn lemma_no_prefix_allows_all(lines: Seq<String>)
    requires
        forall|i: int| 0 <= i < lines.len() ==> candidate_octets(#[trigger] lines[i]@) is Some,
    ensures
        allowed_lines(lines, None) == lines,
    decreases lines.len(),
{
    if lines.len() > 0 {
        let rest = lines.drop_last();
        assert forall|i: int| 0 <= i < rest.len() implies candidate_octets(
            #[trigger] rest[i]@,
        ) is Some by {
            assert(rest[i] == lines[i]);
        }
        lemma_no_prefix_allows_all(rest);
        assert(candidate_octets(lines[lines.len() - 1]@) is Some);
        assert(rest.push(lines.last()) =~= lines);
    }
}

/// Without a prefix nothing is taken out of a section.
pub proof fn lemma_no_prefix_keeps_sections(attributes: Seq<AttributeText>)
    ensures
        staying(attributes, None) == attributes,
    decreases attributes.len(),
{
    if attributes.len() > 0 {
        lemma_no_prefix_keeps_sections(attributes.drop_last());
        assert(attributes.drop_last().push(attributes.last()) =~= attributes);
    }
}

/// No candidate line in what is left has an address in the prefix.
pub proof fn lemma_filtered_sections_obey(
    attributes: Seq<AttributeText>,
    prefix: Option<Prefix>,
    i: int,
)
    requires
        0 <= i < staying(attributes, prefix).len(),
    ensures
        ({
            let (key, value) = staying(attributes, prefix)[i];
            attribute_stays(key, value, prefix)
        }),
    decreases attributes.len(),
{
    if attributes.len() > 0 {
        let before = staying(attributes.drop_last(), prefix);
        if i < before.len() {
            lemma_filtered_sections_obey(attributes.drop_last(), prefix, i);
        }
    }
}

/// An address is used unless it lies in the prefix, if there is one.
pub proof fn lemma_addresses_used(octets: Seq<u8>, prefix: Prefix)
    ensures
        is_allowed(octets, None),
        is_allowed(octets, Some(prefix)) <==> !prefix.includes(octets),
{
}

/// A line is used if and only if it is a candidate whose address is used.
pub proof fn lemma_lines_used(line: Seq<char>, prefix: Option<Prefix>)
    ensures
        candidate_octets(line) is None ==> !line_allowed(line, prefix),
        candidate_octets(line) matches Some(octets) ==> (line_allowed(line, prefix) <==> is_allowed(
            octets,
            prefix,
        )),
{
}

/// Everything stays in a session description but candidate lines whose address is not used; what is no
/// candidate stays even there.
pub proof fn lemma_attributes_stay(key: Seq<char>, value: Option<Seq<char>>, prefix: Option<Prefix>)
    ensures
        key != "candidate"@ ==> attribute_stays(key, value, prefix),
        value is None ==> attribute_stays(key, value, prefix),
        attribute_stays(key, value, prefix) <==> !(key == "candidate"@ && (value matches Some(line)
            && (candidate_octets(line) matches Some(octets) && !is_allowed(octets, prefix)))),
{
}

/// Candidate lines are looked at one by one, in order: those that are used stay and the others go.
pub proof fn lemma_lines_one_by_one(a: Seq<String>, b: Seq<String>, prefix: Option<Prefix>)
    ensures
        allowed_lines(a + b, prefix) == allowed_lines(a, prefix) + allowed_lines(b, prefix),
        b.len() == 1 ==> allowed_lines(b, prefix) == if line_allowed(b[0]@, prefix) {
            b
        } else {
            Seq::empty()
        },
    decreases b.len(),
{
    reveal_with_fuel(allowed_lines, 2);
    if b.len() == 0 {
        assert(a + b =~= a);
        assert(allowed_lines(a, prefix) + allowed_lines(b, prefix) =~= allowed_lines(a, prefix));
    } else {
        lemma_lines_one_by_one(a, b.drop_last(), prefix);
        assert((a + b).drop_last() =~= a + b.drop_last());
        assert((a + b).last() == b.last());
        assert(allowed_lines(a + b, prefix) =~= allowed_lines(a, prefix) + allowed_lines(b, prefix));
        if b.len() == 1 {
            assert(b.drop_last() =~= Seq::<String>::empty());
            assert(Seq::<String>::empty().push(b[0]) =~= b);
        }
    }
}

/// The candidates of this node are looked at one by one, in order: the lines of those that are used are
/// told.
pub proof fn lemma_candidates_one_by_one(
    a: Seq<Candidate>,
    b: Seq<Candidate>,
    prefix: Option<Prefix>,
)
    ensures
        offered_lines(a + b, prefix) == offered_lines(a, prefix) + offered_lines(b, prefix),
        b.len() == 1 ==> offered_lines(b, prefix) == if is_allowed(b[0].ip.octets(), prefix) {
            seq![b[0].line]
        } else {
            Seq::empty()
        },
    decreases b.len(),
{
    reveal_with_fuel(offered_lines, 2);
    if b.len() == 0 {
        assert(a + b =~= a);
        assert(offered_lines(a, prefix) + offered_lines(b, prefix) =~= offered_lines(a, prefix));
    } else {
        lemma_candidates_one_by_one(a, b.drop_last(), prefix);
        assert((a + b).drop_last() =~= a + b.drop_last());
        assert((a + b).last() == b.last());
        assert(offered_lines(a + b, prefix) =~= offered_lines(a, prefix) + offered_lines(b, prefix));
        if b.len() == 1 {
            assert(b.drop_last() =~= Seq::<Candidate>::empty());
            assert(Seq::<String>::empty().push(b[0].line) =~= seq![b[0].line]);
        }
    }
}

/// The attributes of a section are looked at one by one, in order: those that stay are left as they
/// are.
pub proof fn lemma_attributes_one_by_one(
    a: Seq<AttributeText>,
    b: Seq<AttributeText>,
    prefix: Option<Prefix>,
)
    ensures
        staying(a + b, prefix) == staying(a, prefix) + staying(b, prefix),
        b.len() == 1 ==> staying(b, prefix) == if attribute_stays(b[0].0, b[0].1, prefix) {
            b
        } else {
            Seq::empty()
        },
        without_candidates(a + b) == without_candidates(a) + without_candidates(b),
        b.len() == 1 ==> without_candidates(b) == if b[0].0 != "candidate"@ {
            b
        } else {
            Seq::empty()
        },
    decreases b.len(),
{
    reveal_with_fuel(staying, 2);
    reveal_with_fuel(without_candidates, 2);
    if b.len() == 0 {
        assert(a + b =~= a);
        assert(staying(a, prefix) + staying(b, prefix) =~= staying(a, prefix));
        assert(without_candidates(a) + without_candidates(b) =~= without_candidates(a));
    } else {
        lemma_attributes_one_by_one(a, b.drop_last(), prefix);
        assert((a + b).drop_last() =~= a + b.drop_last());
        assert((a + b).last() == b.last());
        assert(staying(a + b, prefix) =~= staying(a, prefix) + staying(b, prefix));
        assert(without_candidates(a + b) =~= without_candidates(a) + without_candidates(b));
        if b.len() == 1 {
            assert(b.drop_last() =~= Seq::<AttributeText>::empty());
            assert(Seq::<AttributeText>::empty().push(b[0]) =~= b);
        }
    }
}

/// Each section of a session description is filtered by itself; none is added or lost.
pub proof fn lemma_sections_one_by_one(offer: bool, sdp: Seq<char>, prefix: Option<Prefix>)
    ensures
        match described_sections(offer, sdp) {
            Some(sections) => filtered_sections(offer, sdp, prefix) matches Some(left) && left.len()
                == sections.len() && forall|i: int|
                0 <= i < left.len() ==> #[trigger] left[i] == staying(sections[i], prefix),
            None => filtered_sections(offer, sdp, prefix) is None,
        },
{
}

/// The text of a description is that of its attributes, each in its place.
pub proof fn lemma_description_text(sections: Seq<Vec<SdpAttribute>>, i: int, j: int)
    requires
        0 <= i < sections.len(),
        0 <= j < sections[i]@.len(),
    ensures
        ({
            let attribute = sections[i]@[j];
            let text = description_text(sections);
            &&& text.len() == sections.len()
            &&& text[i].len() == sections[i]@.len()
            &&& text[i][j].0 == attribute.key@
            &&& attribute.value is None ==> text[i][j].1 is None
            &&& attribute.value matches Some(value) ==> text[i][j].1 == Some(value@)
        }),
{
}

} // verus!
