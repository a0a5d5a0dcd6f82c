//! Chip descriptions and their resolution: a part name is stemmed to a file
//! name, the backing file's text is looked up, and the text is parsed into a
//! structured description by the HDL parser.

use vstd::prelude::*;

use crate::error::GenericError;
use crate::text::{stem, stem_of};

verus! {

/// One pin pairing of a part instance: `internal` names a pin of the
/// instantiated chip's own definition, `external` names a net of the
/// enclosing chip.
#[derive(Debug, Clone, PartialEq, Eq)]
pub struct Conn {
    /// Pin of the instantiated chip's own definition.
    pub internal: String,
    /// Net name in the enclosing chip's namespace.
    pub external: String,
}

/// Mathematical model of a `Conn`.
#[verifier::ext_equal]
pub ghost struct ConnView {
    /// Pin of the instantiated chip's own definition.
    pub internal: Seq<char>,
    /// Net name in the enclosing chip's namespace.
    pub external: Seq<char>,
}

impl View for Conn {
    type V = ConnView;

    open spec fn view(&self) -> ConnView {
        ConnView { internal: self.internal@, external: self.external@ }
    }
}

impl DeepView for Conn {
    type V = ConnView;

    open spec fn deep_view(&self) -> ConnView {
        self.view()
    }
}

/// One part instance of a chip: the name of the chip type instantiated and
/// the ordered pin pairings it declares.
#[derive(Debug, Clone, PartialEq, Eq)]
pub struct PartDesc {
    /// Name of the chip type being instantiated.
    pub name: String,
    /// Ordered pin pairings of this instance.
    pub connections: Vec<Conn>,
}

/// Mathematical model of a `PartDesc`.
#[verifier::ext_equal]
pub ghost struct PartView {
    /// Name of the chip type being instantiated.
    pub name: Seq<char>,
    /// Ordered pin pairings of this instance.
    pub connections: Seq<ConnView>,
}

impl View for PartDesc {
    type V = PartView;

    open spec fn view(&self) -> PartView {
        PartView { name: self.name@, connections: self.connections.deep_view() }
    }
}

impl DeepView for PartDesc {
    type V = PartView;

    open spec fn deep_view(&self) -> PartView {
        self.view()
    }
}

/// A chip definition: its boundary pins and the parts it instantiates.
#[derive(Debug, Clone, PartialEq, Eq)]
pub struct ChipDesc {
    /// Name of the chip.
    pub name: String,
    /// Names of the chip's input pins.
    pub inputs: Vec<String>,
    /// Names of the chip's output pins.
    pub outputs: Vec<String>,
    /// The part instances of the chip, in declaration order.
    pub parts: Vec<PartDesc>,
}

/// Mathematical model of a `ChipDesc`.
#[verifier::ext_equal]
pub ghost struct ChipView {
    /// Name of the chip.
    pub name: Seq<char>,
    /// Names of the chip's input pins.
    pub inputs: Seq<Seq<char>>,
    /// Names of the chip's output pins.
    pub outputs: Seq<Seq<char>>,
    /// The part instances of the chip, in declaration order.
    pub parts: Seq<PartView>,
}

impl View for ChipDesc {
    type V = ChipView;

    open spec fn view(&self) -> ChipView {
        ChipView {
            name: self.name@,
            inputs: self.inputs.deep_view(),
            outputs: self.outputs.deep_view(),
            parts: self.parts.deep_view(),
        }
    }
}

impl DeepView for ChipDesc {
    type V = ChipView;

    open spec fn deep_view(&self) -> ChipView {
        self.view()
    }
}

/// The chip that given HDL text parses to, or nothing when the text is
/// malformed.
pub uninterp spec fn parse_of(text: Seq<char>) -> Option<ChipView>;

/// Relies on `nand2tetris_hdl_parser::parse_hdl`: whether HDL text parses,
/// and the chip description it parses to, are functions of the text alone.
/// The parser's error message is carried through on failure.
#[verifier::external_body]
fn parse_chip(text: &str) -> (r: Result<ChipDesc, String>)
    ensures
        r is Ok <==> parse_of(text@) is Some,
        r is Ok ==> r->Ok_0@ == parse_of(text@)->Some_0,
{
    match nand2tetris_hdl_parser::parse_hdl(text) {
        Ok(c) => Ok(ChipDesc {
            name: c.name,
            inputs: c.inputs.into_iter().map(|p| p.name).collect(),
            outputs: c.outputs.into_iter().map(|p| p.name).collect(),
            parts: c.parts.into_iter().map(|p| PartDesc {
                name: p.name,
                connections: p.internal.into_iter().zip(p.external).map(
                    |(a, b)| Conn { internal: a.name, external: b.name },
                ).collect(),
            }).collect(),
        }),
        Err(e) => Err(e.to_string()),
    }
}

/// The file name backing a part name: its stem followed by the HDL suffix.
pub open spec fn filename_of(name: Seq<char>) -> Seq<char> {
    stem(name) + ".hdl"@
}

/// First-match lookup of a file's text by file name.
pub open spec fn lookup(files: Seq<(Seq<char>, Seq<char>)>, key: Seq<char>) -> Option<Seq<char>>
    decreases files.len(),
{
    if files.len() == 0 {
        None
    } else if files[0].0 == key {
        Some(files[0].1)
    } else {
        lookup(files.skip(1), key)
    }
}

/// What resolving a part name against a file table yields: the parse of the
/// backing file's text, or nothing when the file is absent or malformed.
pub open spec fn resolve_spec(files: Seq<(Seq<char>, Seq<char>)>, name: Seq<char>) -> Option<
    ChipView,
> {
    match lookup(files, filename_of(name)) {
        Some(text) => parse_of(text),
        None => None,
    }
}

proof fn lemma_lookup_skip(files: Seq<(Seq<char>, Seq<char>)>, key: Seq<char>, i: int)
    requires
        0 <= i <= files.len(),
        forall|k: int| 0 <= k < i ==> #[trigger] files[k].0 != key,
    ensures
        lookup(files, key) == lookup(files.skip(i), key),
    decreases i,
{
    if i > 0 {
        assert(files[0].0 != key);
        assert forall|k: int| 0 <= k < i - 1 implies #[trigger] files.skip(1)[k].0 != key by {
            assert(files.skip(1)[k] == files[k + 1]);
        }
        lemma_lookup_skip(files.skip(1), key, i - 1);
        assert(files.skip(1).skip(i - 1) =~= files.skip(i));
    } else {
        assert(files.skip(0) =~= files);
    }
}

/// Finds the text of the file with the given name, first match.
fn find_file<'a>(files: &'a Vec<(String, String)>, key: &String) -> (r: Option<&'a String>)
    ensures
        r is Some <==> lookup(files.deep_view(), key@) is Some,
        r is Some ==> r->Some_0@ == lookup(files.deep_view(), key@)->Some_0,
{
    let ghost fv = files.deep_view();
    let mut i: usize = 0;
    loop
        invariant
            i <= files.len(),
            fv == files.deep_view(),
            fv.len() == files.len(),
            forall|k: int| 0 <= k < i ==> #[trigger] fv[k].0 != key@,
        ensures
            i <= files.len(),
            forall|k: int| 0 <= k < i ==> #[trigger] fv[k].0 != key@,
            i < files.len() ==> fv[i as int].0 == key@,
        decreases files.len() - i,
    {
        if i == files.len() {
            break;
        }
        if files[i].0 == *key {
            assert(fv[i as int].0 == key@);
            break;
        }
        assert(fv[i as int].0 != key@);
        i = i + 1;
    }
    proof {
        lemma_lookup_skip(fv, key@, i as int);
    }
    if i == files.len() {
        assert(fv.skip(i as int) =~= Seq::empty());
        None
    } else {
        assert(fv.skip(i as int)[0] == fv[i as int]);
        assert(lookup(fv, key@) == Some(fv[i as int].1));
        Some(&files[i].1)
    }
}

/// The message reported when a part name's backing file is absent.
pub open spec fn missing_file_message(name: Seq<char>) -> Seq<char> {
    "The file "@ + filename_of(name) + " is missing. It should be in the same directory as the entry file."@
}

/// Locates and parses the chip definition backing a part name.
///
/// The name is stemmed at its first underscore and suffixed with `.hdl` to
/// pick the backing file in the table; the file's text is then parsed.
/// Fails when the file is absent from the table or when its text is
/// malformed HDL; a parse failure carries the parser's own message.
pub fn resolve(name: &str, files: &Vec<(String, String)>) -> (r: Result<ChipDesc, GenericError>)
    ensures
        r is Ok <==> resolve_spec(files.deep_view(), name@) is Some,
        r is Ok ==> r->Ok_0@ == resolve_spec(files.deep_view(), name@)->Some_0,
        r is Err && lookup(files.deep_view(), filename_of(name@)) is None ==> r->Err_0.details@
            == missing_file_message(name@),
{
    let stem_str = stem_of(name);
    let filename = stem_str.concat(".hdl");
    proof {
        assert(filename@ == filename_of(name@));
    }
    match find_file(files, &filename) {
        None => {
            let message = String::from_str("The file ").concat(filename.as_str()).concat(
                " is missing. It should be in the same directory as the entry file.",
            );
            assert(message@ =~= missing_file_message(name@));
            Err(GenericError { details: message })
        },
        Some(text) => match parse_chip(text.as_str()) {
            Ok(c) => Ok(c),
            Err(m) => Err(GenericError { details: m }),
        },
    }
}

} // verus!
