//! The unit inventory: the names of the service manager's units are read
//! out of its introspection document, and one record per unit is built
//! from the properties fetched over the bus. A refresh is all or nothing:
//! any transport failure or a malformed document discards every partial
//! result.
//!
//! The introspection document is scanned by a small state machine that
//! walks the markup and collects the `name` attribute of every `node`
//! element, in document order. The scanner reads tag structure only, as
//! far as the extraction needs it: attribute text is taken verbatim
//! (character references are not expanded), and an end tag is skipped
//! without matching its name against the open element. Unit names on the
//! bus are path-escaped, so neither relaxation can change what is
//! collected from a well-formed document.

use vstd::prelude::*;

use crate::text::{chars_of, is_space, string_from_chars};

verus! {

/// Why a unit refresh failed: the bus transport broke somewhere, or the
/// introspection document could not be parsed.
#[derive(Debug, Clone, Copy, PartialEq, Eq, Structural)]
pub enum UnitGetError {
    ZbusThreadError,
    XmlError,
}

/// Whether `c` may stand in an element or attribute name.
pub open spec fn name_char(c: char) -> bool {
    !is_space(c) && c != '<' && c != '>' && c != '/' && c != '=' && c != '"' && c != '\'' && c
        != '!' && c != '?'
}

fn name_char_exec(c: char) -> (r: bool)
    ensures
        r == name_char(c),
{
    !(c == ' ' || c == '\t' || c == '\n' || c == '\u{b}' || c == '\u{c}' || c == '\r') && c != '<'
        && c != '>' && c != '/' && c != '=' && c != '"' && c != '\'' && c != '!' && c != '?'
}

pub open spec fn node_tag() -> Seq<char> {
    seq!['n', 'o', 'd', 'e']
}

pub open spec fn name_attr() -> Seq<char> {
    seq!['n', 'a', 'm', 'e']
}

/// Where the scanner stands in the markup.
pub ghost enum ScanState {
    /// Outside any markup.
    Text,
    /// After `<`.
    Lt,
    /// After `<!`.
    Bang,
    /// After `<!-`.
    BangDash,
    /// Inside a comment.
    Comment,
    /// Inside a comment, after `-`.
    CommentDash,
    /// Inside a comment, after `--`.
    CommentDashDash,
    /// Inside `<!...>` markup such as a document type declaration.
    Decl,
    /// Inside `<?...>` markup.
    Pi,
    /// Inside `</...>`.
    EndTag,
    /// Reading an element name.
    ElemName(Seq<char>),
    /// Inside a tag, between attributes; the element name is kept.
    BeforeAttr(Seq<char>),
    /// After `/`, expecting `>`.
    SlashEnd,
    /// Reading an attribute name.
    AttrName(Seq<char>, Seq<char>),
    /// After an attribute name, expecting `=`.
    AttrEq(Seq<char>, Seq<char>),
    /// After `=`, expecting an opening quote.
    AttrQuote(Seq<char>, Seq<char>),
    /// Inside an attribute value: element, attribute, quote, value so far.
    AttrVal(Seq<char>, Seq<char>, char, Seq<char>),
    /// The document is malformed.
    Bad,
}

/// A scan in progress: the state and the node names collected so far.
pub ghost struct Scan {
    pub st: ScanState,
    pub names: Seq<Seq<char>>,
}

/// One character fed to the scanner.
pub open spec fn scan_step(s: Scan, c: char) -> Scan {
    match s.st {
        ScanState::Text => if c == '<' {
            Scan { st: ScanState::Lt, ..s }
        } else {
            s
        },
        ScanState::Lt => if c == '!' {
            Scan { st: ScanState::Bang, ..s }
        } else if c == '?' {
            Scan { st: ScanState::Pi, ..s }
        } else if c == '/' {
            Scan { st: ScanState::EndTag, ..s }
        } else if name_char(c) {
            Scan { st: ScanState::ElemName(seq![c]), ..s }
        } else {
            Scan { st: ScanState::Bad, ..s }
        },
        ScanState::Bang => if c == '-' {
            Scan { st: ScanState::BangDash, ..s }
        } else {
            Scan { st: ScanState::Decl, ..s }
        },
        ScanState::BangDash => if c == '-' {
            Scan { st: ScanState::Comment, ..s }
        } else {
            Scan { st: ScanState::Bad, ..s }
        },
        ScanState::Comment => if c == '-' {
            Scan { st: ScanState::CommentDash, ..s }
        } else {
            s
        },
        ScanState::CommentDash => if c == '-' {
            Scan { st: ScanState::CommentDashDash, ..s }
        } else {
            Scan { st: ScanState::Comment, ..s }
        },
        ScanState::CommentDashDash => if c == '>' {
            Scan { st: ScanState::Text, ..s }
        } else if c == '-' {
            s
        } else {
            Scan { st: ScanState::Comment, ..s }
        },
        ScanState::Decl => if c == '>' {
            Scan { st: ScanState::Text, ..s }
        } else {
            s
        },
        ScanState::Pi => if c == '>' {
            Scan { st: ScanState::Text, ..s }
        } else {
            s
        },
        ScanState::EndTag => if c == '>' {
            Scan { st: ScanState::Text, ..s }
        } else {
            s
        },
        ScanState::ElemName(nm) => if name_char(c) {
            Scan { st: ScanState::ElemName(nm.push(c)), ..s }
        } else if is_space(c) {
            Scan { st: ScanState::BeforeAttr(nm), ..s }
        } else if c == '/' {
            Scan { st: ScanState::SlashEnd, ..s }
        } else if c == '>' {
            Scan { st: ScanState::Text, ..s }
        } else {
            Scan { st: ScanState::Bad, ..s }
        },
        ScanState::BeforeAttr(nm) => if is_space(c) {
            s
        } else if c == '/' {
            Scan { st: ScanState::SlashEnd, ..s }
        } else if c == '>' {
            Scan { st: ScanState::Text, ..s }
        } else if name_char(c) {
            Scan { st: ScanState::AttrName(nm, seq![c]), ..s }
        } else {
            Scan { st: ScanState::Bad, ..s }
        },
        ScanState::SlashEnd => if c == '>' {
            Scan { st: ScanState::Text, ..s }
        } else {
            Scan { st: ScanState::Bad, ..s }
        },
        ScanState::AttrName(nm, an) => if name_char(c) {
            Scan { st: ScanState::AttrName(nm, an.push(c)), ..s }
        } else if c == '=' {
            Scan { st: ScanState::AttrQuote(nm, an), ..s }
        } else if is_space(c) {
            Scan { st: ScanState::AttrEq(nm, an), ..s }
        } else {
            Scan { st: ScanState::Bad, ..s }
        },
        ScanState::AttrEq(nm, an) => if c == '=' {
            Scan { st: ScanState::AttrQuote(nm, an), ..s }
        } else if is_space(c) {
            s
        } else {
            Scan { st: ScanState::Bad, ..s }
        },
        ScanState::AttrQuote(nm, an) => if c == '"' || c == '\'' {
            Scan { st: ScanState::AttrVal(nm, an, c, Seq::empty()), ..s }
        } else if is_space(c) {
            s
        } else {
            Scan { st: ScanState::Bad, ..s }
        },
        ScanState::AttrVal(nm, an, q, vb) => if c == q {
            if nm == node_tag() && an == name_attr() {
                Scan { st: ScanState::BeforeAttr(nm), names: s.names.push(vb) }
            } else {
                Scan { st: ScanState::BeforeAttr(nm), ..s }
            }
        } else if c == '<' {
            Scan { st: ScanState::Bad, ..s }
        } else {
            Scan { st: ScanState::AttrVal(nm, an, q, vb.push(c)), ..s }
        },
        ScanState::Bad => s,
    }
}

/// The scanner run over `cs` from state `s`.
pub open spec fn scan_fold(cs: Seq<char>, s: Scan) -> Scan
    decreases cs.len(),
{
    if cs.len() == 0 {
        s
    } else {
        scan_fold(cs.subrange(1, cs.len() as int), scan_step(s, cs[0]))
    }
}

pub open spec fn scan_init() -> Scan {
    Scan { st: ScanState::Text, names: Seq::empty() }
}

/// Whether the whole document scans cleanly: the scanner ends back
/// outside any markup.
pub open spec fn scan_ok(doc: Seq<char>) -> bool {
    scan_fold(doc, scan_init()).st is Text
}

/// The `name` attributes of the document's `node` elements, in order.
pub open spec fn scan_names(doc: Seq<char>) -> Seq<Seq<char>> {
    scan_fold(doc, scan_init()).names
}

#[derive(Clone, Copy)]
enum Tag {
    Text,
    Lt,
    Bang,
    BangDash,
    Comment,
    CommentDash,
    CommentDashDash,
    Decl,
    Pi,
    EndTag,
    ElemName,
    BeforeAttr,
    SlashEnd,
    AttrName,
    AttrEq,
    AttrQuote,
    AttrVal,
    Bad,
}

/// The executable scanner; its buffers carry whatever the current state
/// needs.
struct Scanner {
    tag: Tag,
    elem: Vec<char>,
    attr: Vec<char>,
    quote: char,
    val: Vec<char>,
    names: Vec<Vec<char>>,
}

impl Scanner {
    spec fn sview(&self) -> Scan {
        Scan {
            st: match self.tag {
                Tag::Text => ScanState::Text,
                Tag::Lt => ScanState::Lt,
                Tag::Bang => ScanState::Bang,
                Tag::BangDash => ScanState::BangDash,
                Tag::Comment => ScanState::Comment,
                Tag::CommentDash => ScanState::CommentDash,
                Tag::CommentDashDash => ScanState::CommentDashDash,
                Tag::Decl => ScanState::Decl,
                Tag::Pi => ScanState::Pi,
                Tag::EndTag => ScanState::EndTag,
                Tag::ElemName => ScanState::ElemName(self.elem@),
                Tag::BeforeAttr => ScanState::BeforeAttr(self.elem@),
                Tag::SlashEnd => ScanState::SlashEnd,
                Tag::AttrName => ScanState::AttrName(self.elem@, self.attr@),
                Tag::AttrEq => ScanState::AttrEq(self.elem@, self.attr@),
                Tag::AttrQuote => ScanState::AttrQuote(self.elem@, self.attr@),
                Tag::AttrVal => ScanState::AttrVal(self.elem@, self.attr@, self.quote, self.val@),
                Tag::Bad => ScanState::Bad,
            },
            names: self.names.deep_view(),
        }
    }
}

fn eq_chars(a: &Vec<char>, b: &Vec<char>) -> (r: bool)
    ensures
        r == (a@ == b@),
{
    if a.len() != b.len() {
        return false;
    }
    let n = a.len();
    let mut i: usize = 0;
    while i < n
        invariant
            0 <= i <= n == a@.len() == b@.len(),
            forall|k: int| 0 <= k < i ==> a@[k] == b@[k],
        decreases n - i,
    {
        if a[i] != b[i] {
            return false;
        }
        i = i + 1;
    }
    proof {
        assert(a@ =~= b@);
    }
    true
}

#[verifier::loop_isolation(false)]
fn scan_step_exec(sc: &mut Scanner, c: char)
    ensures
        final(sc).sview() == scan_step(old(sc).sview(), c),
{
    let ghost s0 = sc.sview();
    match sc.tag {
        Tag::Text => {
            if c == '<' {
                sc.tag = Tag::Lt;
            }
        },
        Tag::Lt => {
            if c == '!' {
                sc.tag = Tag::Bang;
            } else if c == '?' {
                sc.tag = Tag::Pi;
            } else if c == '/' {
                sc.tag = Tag::EndTag;
            } else if name_char_exec(c) {
                sc.elem = Vec::new();
                sc.elem.push(c);
                sc.tag = Tag::ElemName;
                proof {
                    assert(sc.elem@ =~= seq![c]);
                }
            } else {
                sc.tag = Tag::Bad;
            }
        },
        Tag::Bang => {
            if c == '-' {
                sc.tag = Tag::BangDash;
            } else {
                sc.tag = Tag::Decl;
            }
        },
        Tag::BangDash => {
            if c == '-' {
                sc.tag = Tag::Comment;
            } else {
                sc.tag = Tag::Bad;
            }
        },
        Tag::Comment => {
            if c == '-' {
                sc.tag = Tag::CommentDash;
            }
        },
        Tag::CommentDash => {
            if c == '-' {
                sc.tag = Tag::CommentDashDash;
            } else {
                sc.tag = Tag::Comment;
            }
        },
        Tag::CommentDashDash => {
            if c == '>' {
                sc.tag = Tag::Text;
            } else if c == '-' {
            } else {
                sc.tag = Tag::Comment;
            }
        },
        Tag::Decl => {
            if c == '>' {
                sc.tag = Tag::Text;
            }
        },
        Tag::Pi => {
            if c == '>' {
                sc.tag = Tag::Text;
            }
        },
        Tag::EndTag => {
            if c == '>' {
                sc.tag = Tag::Text;
            }
        },
        Tag::ElemName => {
            if name_char_exec(c) {
                sc.elem.push(c);
            } else if c == ' ' || c == '\t' || c == '\n' || c == '\u{b}' || c == '\u{c}' || c
                == '\r' {
                sc.tag = Tag::BeforeAttr;
            } else if c == '/' {
                sc.tag = Tag::SlashEnd;
            } else if c == '>' {
                sc.tag = Tag::Text;
            } else {
                sc.tag = Tag::Bad;
            }
        },
        Tag::BeforeAttr => {
            if c == ' ' || c == '\t' || c == '\n' || c == '\u{b}' || c == '\u{c}' || c == '\r' {
            } else if c == '/' {
                sc.tag = Tag::SlashEnd;
            } else if c == '>' {
                sc.tag = Tag::Text;
            } else if name_char_exec(c) {
                sc.attr = Vec::new();
                sc.attr.push(c);
                sc.tag = Tag::AttrName;
                proof {
                    assert(sc.attr@ =~= seq![c]);
                }
            } else {
                sc.tag = Tag::Bad;
            }
        },
        Tag::SlashEnd => {
            if c == '>' {
                sc.tag = Tag::Text;
            } else {
                sc.tag = Tag::Bad;
            }
        },
        Tag::AttrName => {
            if name_char_exec(c) {
                sc.attr.push(c);
            } else if c == '=' {
                sc.tag = Tag::AttrQuote;
            } else if c == ' ' || c == '\t' || c == '\n' || c == '\u{b}' || c == '\u{c}' || c
                == '\r' {
                sc.tag = Tag::AttrEq;
            } else {
                sc.tag = Tag::Bad;
            }
        },
        Tag::AttrEq => {
            if c == '=' {
                sc.tag = Tag::AttrQuote;
            } else if c == ' ' || c == '\t' || c == '\n' || c == '\u{b}' || c == '\u{c}' || c
                == '\r' {
            } else {
                sc.tag = Tag::Bad;
            }
        },
        Tag::AttrQuote => {
            if c == '"' || c == '\'' {
                sc.quote = c;
                sc.val = Vec::new();
                sc.tag = Tag::AttrVal;
                proof {
                    assert(sc.val@ =~= Seq::<char>::empty());
                }
            } else if c == ' ' || c == '\t' || c == '\n' || c == '\u{b}' || c == '\u{c}' || c
                == '\r' {
            } else {
                sc.tag = Tag::Bad;
            }
        },
        Tag::AttrVal => {
            if c == sc.quote {
                let node_lab = vec!['n', 'o', 'd', 'e'];
                let name_lab = vec!['n', 'a', 'm', 'e'];
                proof {
                    assert(node_lab@ =~= node_tag());
                    assert(name_lab@ =~= name_attr());
                }
                if eq_chars(&sc.elem, &node_lab) && eq_chars(&sc.attr, &name_lab) {
                    let ghost nv = sc.names.deep_view();
                    let mut captured: Vec<char> = Vec::new();
                    std::mem::swap(&mut captured, &mut sc.val);
                    sc.names.push(captured);
                    proof {
                        assert(sc.names.deep_view() =~~= nv.push(s0.st->AttrVal_3));
                    }
                }
                sc.tag = Tag::BeforeAttr;
            } else if c == '<' {
                sc.tag = Tag::Bad;
            } else {
                sc.val.push(c);
            }
        },
        Tag::Bad => {},
    }
}

/// The `name` attribute of every `node` element of the introspection
/// document, in document order; the document's own error when it cannot
/// be scanned.
pub fn names_from_xml(xml: String) -> (r: Result<Vec<String>, UnitGetError>)
    ensures
        r is Ok <==> scan_ok(xml@),
        r is Ok ==> r->Ok_0.deep_view() == scan_names(xml@),
        r is Err ==> r->Err_0 == UnitGetError::XmlError,
{
    let cs = chars_of(xml.as_str());
    let mut sc = Scanner {
        tag: Tag::Text,
        elem: Vec::new(),
        attr: Vec::new(),
        quote: ' ',
        val: Vec::new(),
        names: Vec::new(),
    };
    proof {
        assert(sc.names.deep_view() =~= Seq::<Seq<char>>::empty());
        assert(sc.sview() == scan_init());
        assert(cs@.subrange(0, cs@.len() as int) =~= cs@);
    }
    let n = cs.len();
    let mut i: usize = 0;
    while i < n
        invariant
            0 <= i <= n == cs@.len(),
            cs@ == xml@,
            scan_fold(cs@.subrange(i as int, n as int), sc.sview()) == scan_fold(
                cs@,
                scan_init(),
            ),
        decreases n - i,
    {
        let ghost seg = cs@.subrange(i as int, n as int);
        proof {
            assert(seg.subrange(1, seg.len() as int) =~= cs@.subrange(i + 1, n as int));
            assert(seg[0] == cs@[i as int]);
        }
        scan_step_exec(&mut sc, cs[i]);
        i = i + 1;
    }
    proof {
        assert(cs@.subrange(n as int, n as int) =~= Seq::<char>::empty());
    }
    match sc.tag {
        Tag::Text => {
            let mut out: Vec<String> = Vec::new();
            let m = sc.names.len();
            let mut k: usize = 0;
            while k < m
                invariant
                    0 <= k <= m == sc.names@.len(),
                    out@.len() == k,
                    forall|j: int| 0 <= j < k ==> out@[j]@ == sc.names@[j]@,
                decreases m - k,
            {
                let s = string_from_chars(&sc.names[k]);
                out.push(s);
                k = k + 1;
            }
            proof {
                assert(out.deep_view() =~~= sc.names.deep_view());
            }
            Ok(out)
        },
        _ => Err(UnitGetError::XmlError),
    }
}

/// One service-manager unit.
#[derive(Debug, Clone)]
pub struct UnitInfo {
    pub originunit: String,
    pub can_freeze: bool,
    pub collect_mode: String,
    pub id: String,
}

/// The plain values of a `UnitInfo`.
pub ghost struct UnitView {
    pub originunit: Seq<char>,
    pub can_freeze: bool,
    pub collect_mode: Seq<char>,
    pub id: Seq<char>,
}

impl View for UnitInfo {
    type V = UnitView;

    open spec fn view(&self) -> UnitView {
        UnitView {
            originunit: self.originunit@,
            can_freeze: self.can_freeze,
            collect_mode: self.collect_mode@,
            id: self.id@,
        }
    }
}

impl DeepView for UnitInfo {
    type V = UnitView;

    open spec fn deep_view(&self) -> UnitView {
        self.view()
    }
}

/// The three properties read for one unit; absent when any read failed.
#[derive(Debug, Clone)]
pub struct UnitProps {
    pub can_freeze: bool,
    pub collect_mode: String,
    pub id: String,
}

/// The unit inventory: the records of the last successful refresh.
#[derive(Debug, Clone)]
pub struct UnitInterfaceInfoVec(Vec<UnitInfo>);

impl View for UnitInterfaceInfoVec {
    type V = Seq<UnitView>;

    closed spec fn view(&self) -> Seq<UnitView> {
        self.0.deep_view()
    }
}

impl UnitInterfaceInfoVec {
    pub fn new() -> (r: Self)
        ensures
            r@.len() == 0,
    {
        let r = UnitInterfaceInfoVec(Vec::new());
        proof {
            assert(r.0.deep_view() =~= Seq::<UnitView>::empty());
        }
        r
    }

    pub fn is_empty(&self) -> (r: bool)
        ensures
            r == (self@.len() == 0),
    {
        self.0.is_empty()
    }

    /// The current unit records.
    pub fn iter(&self) -> (r: &Vec<UnitInfo>)
        ensures
            r.deep_view() == self@,
    {
        &self.0
    }

    /// Assembles a replacement unit list from one remote query cycle:
    /// the introspection document (absent when the connection, the proxy
    /// or the introspection call failed) and, for each discovered unit in
    /// order, the properties read for it (absent when any read failed).
    /// Any failure aborts the whole refresh: the stored list is never
    /// touched, and no partial result escapes.
    #[verifier::loop_isolation(false)]
    pub fn refresh(&self, intro: Option<String>, props: Vec<Option<UnitProps>>) -> (r: Result<
        UnitInterfaceInfoVec,
        UnitGetError,
    >)
        ensures
            r is Ok <==> match intro {
                None => false,
                Some(xml) => scan_ok(xml@) && props@.len() >= scan_names(xml@).len() && (forall|
                    i: int,
                |
                    0 <= i < scan_names(xml@).len() ==> props@[i] is Some),
            },
            r is Ok ==> {
                let names = scan_names(intro->0@);
                &&& r->Ok_0@.len() == names.len()
                &&& forall|i: int|
                    0 <= i < names.len() ==> r->Ok_0@[i] == (UnitView {
                        originunit: names[i],
                        can_freeze: props@[i]->0.can_freeze,
                        collect_mode: props@[i]->0.collect_mode@,
                        id: props@[i]->0.id@,
                    })
            },
            r is Err ==> r->Err_0 == (match intro {
                None => UnitGetError::ZbusThreadError,
                Some(xml) => if !scan_ok(xml@) {
                    UnitGetError::XmlError
                } else {
                    UnitGetError::ZbusThreadError
                },
            }),
    {
        let xml = match intro {
            Some(x) => x,
            None => {
                return Err(UnitGetError::ZbusThreadError);
            },
        };
        let names = match names_from_xml(xml) {
            Ok(ns) => ns,
            Err(e) => {
                return Err(e);
            },
        };
        let mut unitvec: Vec<UnitInfo> = Vec::new();
        let n = names.len();
        proof {
            assert(names.deep_view().len() == names@.len());
        }
        if props.len() < n {
            return Err(UnitGetError::ZbusThreadError);
        }
        let ghost nseq = names.deep_view();
        let mut i: usize = 0;
        while i < n
            invariant
                0 <= i <= n == names@.len(),
                props@.len() >= n,
                names.deep_view() == nseq,
                unitvec@.len() == i,
                forall|k: int| 0 <= k < i ==> props@[k] is Some,
                forall|k: int|
                    0 <= k < i ==> unitvec@[k]@ == (UnitView {
                        originunit: nseq[k],
                        can_freeze: props@[k]->0.can_freeze,
                        collect_mode: props@[k]->0.collect_mode@,
                        id: props@[k]->0.id@,
                    }),
            decreases n - i,
        {
            match &props[i] {
                Some(p) => {
                    let u = UnitInfo {
                        originunit: names[i].clone(),
                        can_freeze: p.can_freeze,
                        collect_mode: p.collect_mode.clone(),
                        id: p.id.clone(),
                    };
                    unitvec.push(u);
                },
                None => {
                    proof {
                        assert(props@[i as int] is None);
                    }
                    return Err(UnitGetError::ZbusThreadError);
                },
            }
            i = i + 1;
        }
        let r = UnitInterfaceInfoVec(unitvec);
        proof {
            assert(r@.len() == nseq.len());
        }
        Ok(r)
    }
}

} // verus!
