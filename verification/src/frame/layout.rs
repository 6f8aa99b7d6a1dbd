//! What a declared type, a constant and a text are as runs of words.
use crate::frame::kinds::Part;
use crate::frame::operands::Operands;
use crate::frame::word::Word;
use crate::ir::{case_named, Const, ConstId, Inst, Program, Scalar, SlotKind, StructType};
use crate::schema::HostType;
use crate::text::same;
use vstd::prelude::*;
use vstd::string::*;

verus! {

/// What a declared slot is as a word of a heap object. A place has no such
/// form, and no declared field or payload position is one.
pub open spec fn part_of(kind: SlotKind) -> Part {
    match kind {
        SlotKind::Value => Part::Nested,
        SlotKind::Scalar(Scalar::Int) => Part::Int,
        SlotKind::Scalar(Scalar::Bool) => Part::Bool,
        SlotKind::Place => Part::Nested,
    }
}

/// What a declared slot is as a word of a heap object.
fn slot_part(kind: SlotKind) -> (part: Part)
    ensures
        part == part_of(kind),
{
    match kind {
        SlotKind::Value => Part::Nested,
        SlotKind::Scalar(Scalar::Int) => Part::Int,
        SlotKind::Scalar(Scalar::Bool) => Part::Bool,
        SlotKind::Place => Part::Nested,
    }
}

/// No declared field or payload position is a place.
pub open spec fn keeps_no_place(program: Program) -> bool {
    &&& forall|i: int, j: int|
        0 <= i < program.structs@.len() && 0 <= j < program.structs@[i].fields@.len()
            ==> !((#[trigger] program.structs@[i].fields@[j]).kind is Place)
    &&& forall|t: int, c: int, j: int|
        0 <= t < program.enums@.len() && 0 <= c < program.enums@[t].cases@.len() && 0 <= j
            < program.enums@[t].cases@[c].payload@.len() ==> !((
        #[trigger] program.enums@[t].cases@[c].payload@[j]) is Place)
}

/// What the words of a struct are.
pub open spec fn parts_of(declared: StructType) -> Seq<Part> {
    Seq::new(declared.fields@.len(), |i: int| part_of(declared.fields@[i].kind))
}

/// What the payload of a case is.
pub open spec fn payload_parts(payload: Seq<SlotKind>) -> Seq<Part> {
    Seq::new(payload.len(), |i: int| part_of(payload[i]))
}

/// What every declared struct is as words, in declaration order.
pub fn struct_parts(program: &Program) -> (parts: Vec<Vec<Part>>)
    requires
        keeps_no_place(*program),
    ensures
        parts@.len() == program.structs@.len(),
        forall|i: int|
            0 <= i < parts@.len() ==> (#[trigger] parts@[i])@ == parts_of(program.structs@[i]),
{
    let mut parts: Vec<Vec<Part>> = Vec::new();
    let mut i: usize = 0;
    while i < program.structs.len()
        invariant
            i <= program.structs@.len(),
            parts@.len() == i,
            forall|j: int|
                0 <= j < i ==> (#[trigger] parts@[j])@ == parts_of(program.structs@[j]),
        decreases program.structs@.len() - i,
    {
        let declared = &program.structs[i];
        let mut words: Vec<Part> = Vec::new();
        let mut j: usize = 0;
        while j < declared.fields.len()
            invariant
                j <= declared.fields@.len(),
                words@ == parts_of(*declared).take(j as int),
            decreases declared.fields@.len() - j,
        {
            words.push(slot_part(declared.fields[j].kind));
            proof {
                assert(words@ =~= parts_of(*declared).take(j + 1));
            }
            j = j + 1;
        }
        proof {
            assert(words@ =~= parts_of(*declared));
        }
        parts.push(words);
        i = i + 1;
    }
    parts
}

/// What one case's payload is as words.
fn case_parts(payload: &Vec<SlotKind>) -> (words: Vec<Part>)
    ensures
        words@ == payload_parts(payload@),
{
    let mut words: Vec<Part> = Vec::new();
    let mut j: usize = 0;
    while j < payload.len()
        invariant
            j <= payload@.len(),
            words@ == payload_parts(payload@).take(j as int),
        decreases payload@.len() - j,
    {
        words.push(slot_part(payload[j]));
        proof {
            assert(words@ =~= payload_parts(payload@).take(j + 1));
        }
        j = j + 1;
    }
    proof {
        assert(words@ =~= payload_parts(payload@));
    }
    words
}

/// What every case of every declared enum is as words: at `[t][c]` stands the
/// payload of case `c` of enum `t`.
pub fn enum_parts(program: &Program) -> (parts: Vec<Vec<Vec<Part>>>)
    requires
        keeps_no_place(*program),
    ensures
        parts@.len() == program.enums@.len(),
        forall|t: int|
            0 <= t < parts@.len() ==> (#[trigger] parts@[t])@.len()
                == program.enums@[t].cases@.len(),
        forall|t: int, c: int|
            0 <= t < parts@.len() && 0 <= c < parts@[t]@.len() ==> (#[trigger] parts@[t]@[c])@
                == payload_parts(program.enums@[t].cases@[c].payload@),
{
    let mut parts: Vec<Vec<Vec<Part>>> = Vec::new();
    let mut t: usize = 0;
    while t < program.enums.len()
        invariant
            t <= program.enums@.len(),
            parts@.len() == t,
            forall|u: int|
                0 <= u < t ==> (#[trigger] parts@[u])@.len() == program.enums@[u].cases@.len(),
            forall|u: int, c: int|
                0 <= u < t && 0 <= c < parts@[u]@.len() ==> (#[trigger] parts@[u]@[c])@
                    == payload_parts(program.enums@[u].cases@[c].payload@),
        decreases program.enums@.len() - t,
    {
        let declared = &program.enums[t];
        let mut cases: Vec<Vec<Part>> = Vec::new();
        let mut c: usize = 0;
        while c < declared.cases.len()
            invariant
                c <= declared.cases@.len(),
                cases@.len() == c,
                forall|d: int|
                    0 <= d < c ==> (#[trigger] cases@[d])@ == payload_parts(
                        declared.cases@[d].payload@,
                    ),
            decreases declared.cases@.len() - c,
        {
            cases.push(case_parts(&declared.cases[c].payload));
            c = c + 1;
        }
        parts.push(cases);
        t = t + 1;
    }
    parts
}

/// A case an object can be built as, and what its payload is.
pub ghost struct Site {
    pub kind_name: Seq<char>,
    pub case: Seq<char>,
    pub payload: Seq<Part>,
}

/// A case an object can be built as, and what its payload is.
#[derive(Debug)]
pub struct EnumSite {
    pub kind_name: String,
    pub case: String,
    pub payload: Vec<Part>,
}

impl View for EnumSite {
    type V = Site;

    open spec fn view(&self) -> Site {
        Site { kind_name: self.kind_name@, case: self.case@, payload: self.payload@ }
    }
}

impl EnumSite {
    fn new(kind_name: &str, case: &str, payload: Vec<Part>) -> (site: EnumSite)
        ensures
            site@ == (Site { kind_name: kind_name@, case: case@, payload: payload@ }),
    {
        EnumSite { kind_name: kind_name.to_owned(), case: case.to_owned(), payload }
    }
}

/// The builtin type and case a constructor call of `argc` arguments builds.
pub open spec fn builtin_case(name: Seq<char>, argc: int) -> Option<(Seq<char>, Seq<char>)> {
    if name == "Ok"@ && argc == 1 {
        Some(("Result"@, "Ok"@))
    } else if name == "Err"@ && argc == 1 {
        Some(("Result"@, "Err"@))
    } else if name == "Some"@ && argc == 1 {
        Some(("Option"@, "Some"@))
    } else if name == "None"@ && argc == 0 {
        Some(("Option"@, "None"@))
    } else {
        None
    }
}

/// What a declared case is, if the enum is declared, has the case, and the
/// case takes that many payload words.
pub open spec fn declared_site(
    program: Program,
    kind_name: Seq<char>,
    case: Seq<char>,
    argc: int,
) -> Option<Site> {
    if exists|t: int, c: int| #[trigger]
        declared_at(program, kind_name, case, t, c) && program.enums@[t].cases@[c].payload@.len()
            == argc {
        let (t, c) = choose|t: int, c: int| #[trigger]
            declared_at(program, kind_name, case, t, c);
        Some(
            Site { kind_name, case, payload: payload_parts(program.enums@[t].cases@[c].payload@) },
        )
    } else {
        None
    }
}

/// Enum `t` is the first called `kind_name`, and its case `c` the first called
/// `case`.
pub open spec fn declared_at(
    program: Program,
    kind_name: Seq<char>,
    case: Seq<char>,
    t: int,
    c: int,
) -> bool {
    program.enum_at(kind_name, t) && crate::ir::case_at(program.enums@[t], case, c)
}

/// There is one such enum and one such case of it.
pub proof fn lemma_declared_once(
    program: Program,
    kind_name: Seq<char>,
    case: Seq<char>,
    t: int,
    c: int,
    u: int,
    d: int,
)
    requires
        declared_at(program, kind_name, case, t, c),
        declared_at(program, kind_name, case, u, d),
    ensures
        t == u,
        c == d,
{
    if t < u {
        assert(program.enums@[t].name@ == kind_name);
    } else if u < t {
        assert(program.enums@[u].name@ == kind_name);
    }
    if c < d {
        assert(program.enums@[t].cases@[c].name@ == case);
    } else if d < c {
        assert(program.enums@[t].cases@[d].name@ == case);
    }
}

/// What the instruction builds, if it builds a case whose payload can be
/// shown.
pub open spec fn construction(
    program: Program,
    at: Seq<Option<Seq<crate::frame::kinds::Held>>>,
    pc: int,
    inst: Inst,
) -> Option<Site> {
    match inst {
        Inst::MakeEnum { ty, named, argc } => declared_site(
            program,
            program.name_text(ty),
            program.name_text(named),
            argc as int,
        ),
        Inst::MakeBuiltin { name, argc } => match builtin_case(
            program.name_text(name),
            argc as int,
        ) {
            Some(pair) => if argc == 0 {
                Some(Site { kind_name: pair.0, case: pair.1, payload: Seq::empty() })
            } else {
                match crate::frame::operands::kinds_at(at, pc, 1) {
                    Some(kinds) => Some(
                        Site { kind_name: pair.0, case: pair.1, payload: seq![kinds[0].as_part()] },
                    ),
                    None => None,
                }
            },
            None => None,
        },
        _ => None,
    }
}

/// The builtin type and case a constructor call of `argc` arguments builds.
fn builtin_constructor(name: &str, argc: u32) -> (pair: Option<(&'static str, &'static str)>)
    ensures
        match pair {
            Some(p) => builtin_case(name@, argc as int) == Some((p.0@, p.1@)),
            None => builtin_case(name@, argc as int) is None,
        },
{
    if same(name, "Ok") && argc == 1 {
        Some(("Result", "Ok"))
    } else if same(name, "Err") && argc == 1 {
        Some(("Result", "Err"))
    } else if same(name, "Some") && argc == 1 {
        Some(("Option", "Some"))
    } else if same(name, "None") && argc == 0 {
        Some(("Option", "None"))
    } else {
        None
    }
}

/// What a `make-enum`, or a builtin constructor, at `pc` builds.
pub fn enum_construction(
    program: &Program,
    operands: &Operands,
    pc: usize,
    inst: Inst,
) -> (site: Option<EnumSite>)
    requires
        keeps_no_place(*program),
        crate::ir::names_what_exists(*program, inst),
    ensures
        match site {
            Some(s) => construction(*program, operands@, pc as int, inst) == Some(s@),
            None => construction(*program, operands@, pc as int, inst) is None,
        },
{
    match inst {
        Inst::MakeEnum { ty, named, argc } => {
            let kind_name = program.const_name(ty);
            let case_name = program.const_name(named);
            let t: usize = match program.enum_named(kind_name) {
                Some(t) => t,
                None => {
                    return None;
                },
            };
            let declared = &program.enums[t];
            let c: usize = match case_named(declared, case_name) {
                Some(c) => c,
                None => {
                    proof {
                        assert forall|u: int, d: int|
                            !#[trigger] declared_at(*program, kind_name@, case_name@, u, d) by {
                            if declared_at(*program, kind_name@, case_name@, u, d) {
                                if u < t {
                                    assert(program.enums@[u].name@ == kind_name@);
                                } else if t < u {
                                    assert(program.enums@[t as int].name@ == kind_name@);
                                }
                                assert(program.enums@[u].cases@[d].name@ == case_name@);
                            }
                        }
                    }
                    return None;
                },
            };
            proof {
                assert(declared_at(*program, kind_name@, case_name@, t as int, c as int));
                assert forall|u: int, d: int| #[trigger]
                    declared_at(*program, kind_name@, case_name@, u, d) implies u == t && d
                    == c by {
                    lemma_declared_once(
                        *program,
                        kind_name@,
                        case_name@,
                        u,
                        d,
                        t as int,
                        c as int,
                    );
                }
            }
            if declared.cases[c].payload.len() != argc as usize {
                return None;
            }
            Some(EnumSite::new(kind_name, case_name, case_parts(&declared.cases[c].payload)))
        },
        Inst::MakeBuiltin { name, argc } => match builtin_constructor(
            program.const_name(name),
            argc,
        ) {
            None => None,
            Some(pair) => {
                let mut payload: Vec<Part> = Vec::new();
                if argc != 0 {
                    match operands.top(pc, 1) {
                        None => {
                            return None;
                        },
                        Some(kinds) => {
                            payload.push(kinds[0].part());
                            proof {
                                assert(payload@ =~= seq![kinds@[0].as_part()]);
                            }
                        },
                    }
                }
                proof {
                    if argc == 0 {
                        assert(payload@ =~= Seq::<Part>::empty());
                    }
                }
                Some(EnumSite::new(pair.0, pair.1, payload))
            },
        },
        _ => None,
    }
}

/// Where the last dot of a text stands.
pub open spec fn last_dot(text: Seq<char>) -> Option<int>
    decreases text.len(),
{
    if text.len() == 0 {
        None
    } else if text.last() == '.' {
        Some(text.len() - 1)
    } else {
        last_dot(text.drop_last())
    }
}

/// The part of a qualified name after its last dot.
pub open spec fn short_name(text: Seq<char>) -> Seq<char> {
    match last_dot(text) {
        Some(at) => text.skip(at + 1),
        None => text,
    }
}

/// A case of a type is the one a test asks for: by its bare name, or by
/// `Type.Case` where the short name of the type agrees too.
pub open spec fn is_case(kind_name: Seq<char>, case: Seq<char>, tested: Seq<char>) -> bool {
    match last_dot(tested) {
        Some(at) => case == tested.skip(at + 1) && short_name(kind_name) == tested.take(at),
        None => case == tested,
    }
}

/// Where the last dot of a text stands.
pub(crate) fn find_last_dot(text: &str) -> (found: Option<usize>)
    ensures
        match found {
            Some(at) => last_dot(text@) == Some(at as int) && at < text@.len(),
            None => last_dot(text@) is None,
        },
{
    let mut at: usize = text.unicode_len();
    proof {
        assert(text@.take(at as int) =~= text@);
    }
    while at > 0
        invariant
            at <= text@.len(),
            last_dot(text@.take(at as int)) == last_dot(text@),
        decreases at,
    {
        let c: char = text.get_char(at - 1);
        proof {
            assert(text@.take(at as int).last() == c);
            assert(text@.take(at as int).drop_last() =~= text@.take(at - 1));
        }
        if c == '.' {
            return Some(at - 1);
        }
        at = at - 1;
    }
    None
}

/// Whether a case of a type is the one a test asks for.
pub fn case_matches(kind_name: &str, case: &str, tested: &str) -> (yes: bool)
    ensures
        yes == is_case(kind_name@, case@, tested@),
{
    match find_last_dot(tested) {
        None => same(case, tested),
        Some(at) => {
            let total: usize = tested.unicode_len();
            let tested_case = tested.substring_char(at + 1, total);
            let expected = tested.substring_char(0, at);
            proof {
                assert(tested_case@ =~= tested@.skip(at + 1));
                assert(expected@ =~= tested@.take(at as int));
            }
            if !same(case, tested_case) {
                return false;
            }
            match find_last_dot(kind_name) {
                None => same(kind_name, expected),
                Some(dot) => {
                    let whole: usize = kind_name.unicode_len();
                    let short = kind_name.substring_char(dot + 1, whole);
                    proof {
                        assert(short@ =~= kind_name@.skip(dot + 1));
                    }
                    same(short, expected)
                },
            }
        },
    }
}

/// The pair names a case of a builtin type.
pub open spec fn names_builtin_case(kind_name: Seq<char>, case: Seq<char>) -> bool {
    ||| kind_name == "Result"@ && (case == "Ok"@ || case == "Err"@)
    ||| kind_name == "Option"@ && (case == "Some"@ || case == "None"@)
}

/// The builtin type and case a pair of names is, if it is one of the four.
pub fn static_case_name(kind_name: &str, case: &str) -> (pair: Option<
    (&'static str, &'static str),
>)
    ensures
        match pair {
            Some(p) => names_builtin_case(kind_name@, case@) && p.0@ == kind_name@ && p.1@ == case@,
            None => !names_builtin_case(kind_name@, case@),
        },
{
    if same(kind_name, "Result") && same(case, "Ok") {
        Some(("Result", "Ok"))
    } else if same(kind_name, "Result") && same(case, "Err") {
        Some(("Result", "Err"))
    } else if same(kind_name, "Option") && same(case, "Some") {
        Some(("Option", "Some"))
    } else if same(kind_name, "Option") && same(case, "None") {
        Some(("Option", "None"))
    } else {
        None
    }
}

/// The cases a value of a host type is built out of, innermost first, where
/// the type has a form in words.
pub open spec fn host_sites(ty: HostType) -> Seq<Site>
    decreases ty,
{
    match ty {
        HostType::Option(inner) => host_sites(*inner) + seq![
            Site {
                kind_name: "Option"@,
                case: "Some"@,
                payload: seq![crate::frame::kinds::host_word(*inner)->0],
            },
            Site { kind_name: "Option"@, case: "None"@, payload: Seq::empty() },
        ],
        HostType::Result(ok, err) => host_sites(*ok) + host_sites(*err) + seq![
            Site {
                kind_name: "Result"@,
                case: "Ok"@,
                payload: seq![crate::frame::kinds::host_word(*ok)->0],
            },
            Site {
                kind_name: "Result"@,
                case: "Err"@,
                payload: seq![crate::frame::kinds::host_word(*err)->0],
            },
        ],
        _ => Seq::empty(),
    }
}

/// Sites, mathematically.
pub open spec fn sites_of(sites: Seq<EnumSite>) -> Seq<Site> {
    Seq::new(sites.len(), |i: int| sites[i]@)
}

/// Adding a site adds what it is.
proof fn lemma_site_added(sites: Seq<EnumSite>, site: EnumSite)
    ensures
        sites_of(sites.push(site)) == sites_of(sites).push(site@),
{
    assert(sites_of(sites.push(site)) =~= sites_of(sites).push(site@));
}

/// Adds one case to a list of them.
fn add_site(kind_name: &str, case: &str, payload: Vec<Part>, sites: &mut Vec<EnumSite>)
    ensures
        sites_of(final(sites)@) == sites_of(old(sites)@).push(
            Site { kind_name: kind_name@, case: case@, payload: payload@ },
        ),
{
    let site = EnumSite::new(kind_name, case, payload);
    proof {
        lemma_site_added(sites@, site);
    }
    sites.push(site);
}

/// Adds the cases a value of a host type is built out of.
fn add_host_sites(ty: &HostType, sites: &mut Vec<EnumSite>)
    requires
        crate::frame::kinds::host_word(*ty) is Some,
    ensures
        sites_of(final(sites)@) == sites_of(old(sites)@) + host_sites(*ty),
    decreases ty,
{
    let ghost before = sites_of(sites@);
    match ty {
        HostType::Option(inner) => {
            let part: Part = match crate::frame::kinds::host_part(inner) {
                Some(part) => part,
                None => Part::Unit,
            };
            add_host_sites(inner, sites);
            let mut payload: Vec<Part> = Vec::new();
            payload.push(part);
            proof {
                assert(payload@ =~= seq![crate::frame::kinds::host_word(**inner)->0]);
            }
            add_site("Option", "Some", payload, sites);
            let empty: Vec<Part> = Vec::new();
            proof {
                assert(empty@ =~= Seq::<Part>::empty());
            }
            add_site("Option", "None", empty, sites);
            proof {
                assert(sites_of(sites@) =~= before + host_sites(*ty));
            }
        },
        HostType::Result(ok, err) => {
            let ok_part: Part = match crate::frame::kinds::host_part(ok) {
                Some(part) => part,
                None => Part::Unit,
            };
            let err_part: Part = match crate::frame::kinds::host_part(err) {
                Some(part) => part,
                None => Part::Unit,
            };
            add_host_sites(ok, sites);
            add_host_sites(err, sites);
            let mut payload: Vec<Part> = Vec::new();
            payload.push(ok_part);
            proof {
                assert(payload@ =~= seq![crate::frame::kinds::host_word(**ok)->0]);
            }
            add_site("Result", "Ok", payload, sites);
            let mut payload: Vec<Part> = Vec::new();
            payload.push(err_part);
            proof {
                assert(payload@ =~= seq![crate::frame::kinds::host_word(**err)->0]);
            }
            add_site("Result", "Err", payload, sites);
            proof {
                assert(sites_of(sites@) =~= before + host_sites(*ty));
            }
        },
        _ => {
            proof {
                assert(sites_of(sites@) =~= before + host_sites(*ty));
            }
        },
    }
}

/// The cases the answer of a host operation may be, if the program knows the
/// operation and its declared result has a form in words.
pub fn host_result_layouts(program: &Program, module: &str, op: &str) -> (sites: Option<
    Vec<EnumSite>,
>)
    ensures
        match sites {
            Some(list) => crate::frame::kinds::host_answer(*program, module@, op@) matches Some(ty)
                && crate::frame::kinds::host_word(ty) is Some && sites_of(list@) == host_sites(ty),
            None => crate::frame::kinds::answer_kind(*program, module@, op@) is None,
        },
{
    match crate::frame::kinds::host_operation_result(program, module, op) {
        None => None,
        Some(ty) => match crate::frame::kinds::host_part(ty) {
            None => None,
            Some(_) => {
                let mut sites: Vec<EnumSite> = Vec::new();
                add_host_sites(ty, &mut sites);
                proof {
                    assert(sites_of(sites@) =~= host_sites(*ty));
                }
                Some(sites)
            },
        },
    }
}

/// The first field called `name` of a struct stands at `at`.
pub open spec fn field_at(declared: StructType, name: Seq<char>, at: int) -> bool {
    &&& 0 <= at < declared.fields@.len()
    &&& declared.fields@[at].name@ == name
    &&& forall|j: int| 0 <= j < at ==> (#[trigger] declared.fields@[j]).name@ != name
}

/// Struct `s` has a field called `name`, at `at`.
pub open spec fn has_field(program: Program, name: Seq<char>, s: int, at: int) -> bool {
    0 <= s < program.structs@.len() && field_at(program.structs@[s], name, at)
}

/// Every struct that has a field called `name` has it at `at`, and one does.
pub open spec fn settles(program: Program, name: Seq<char>, at: int) -> bool {
    &&& exists|s: int| has_field(program, name, s, at)
    &&& forall|s: int, other: int| #[trigger] has_field(program, name, s, other) ==> other == at
}

/// An instruction of the program writes the field constant `id` names.
pub open spec fn writes(program: Program, id: ConstId) -> bool {
    exists|f: int, pc: int| writes_at(program, id, f, pc)
}

/// The instruction at `pc` of function `f` writes the field `id` names.
pub open spec fn writes_at(program: Program, id: ConstId, f: int, pc: int) -> bool {
    0 <= f < program.functions@.len() && 0 <= pc < program.functions@[f].code@.len()
        && program.functions@[f].code@[pc] == Inst::SetField(id)
}

/// Where the first field called `name` of a struct stands.
fn find_field(declared: &StructType, name: &str) -> (found: Option<usize>)
    ensures
        match found {
            Some(at) => field_at(*declared, name@, at as int),
            None => forall|at: int| !field_at(*declared, name@, at),
        },
{
    let mut at: usize = 0;
    while at < declared.fields.len()
        invariant
            at <= declared.fields@.len(),
            forall|j: int| 0 <= j < at ==> (#[trigger] declared.fields@[j]).name@ != name@,
        decreases declared.fields@.len() - at,
    {
        if same(declared.fields[at].name.as_str(), name) {
            return Some(at);
        }
        at = at + 1;
    }
    None
}

/// Where a field called `name` stands in every struct that has one.
pub fn field_position(program: &Program, name: &str) -> (found: Option<usize>)
    ensures
        match found {
            Some(at) => settles(*program, name@, at as int),
            None => forall|at: int| !settles(*program, name@, at),
        },
{
    let mut found: Option<usize> = None;
    let mut s: usize = 0;
    while s < program.structs.len()
        invariant
            s <= program.structs@.len(),
            match found {
                Some(at) => {
                    &&& exists|t: int| t < s && #[trigger] has_field(*program, name@, t, at as int)
                    &&& forall|t: int, other: int| #[trigger]
                        has_field(*program, name@, t, other) && t < s ==> other == at
                },
                None => forall|t: int, other: int| #[trigger]
                    has_field(*program, name@, t, other) ==> t >= s,
            },
        decreases program.structs@.len() - s,
    {
        match find_field(&program.structs[s], name) {
            None => {
                proof {
                    assert forall|other: int| !#[trigger]
                        has_field(*program, name@, s as int, other) by {
                        assert(!field_at(program.structs@[s as int], name@, other));
                    }
                }
            },
            Some(at) => {
                proof {
                    assert(has_field(*program, name@, s as int, at as int));
                    assert forall|other: int| #[trigger]
                        has_field(*program, name@, s as int, other) implies other == at by {
                        if other < at {
                            assert(program.structs@[s as int].fields@[other].name@ == name@);
                        } else if at < other {
                            assert(program.structs@[s as int].fields@[at as int].name@ == name@);
                        }
                    }
                }
                match found {
                    None => {
                        found = Some(at);
                    },
                    Some(before) => {
                        if before != at {
                            proof {
                                let t = choose|t: int|
                                    t < s && #[trigger] has_field(
                                        *program,
                                        name@,
                                        t,
                                        before as int,
                                    );
                                assert forall|any: int| !settles(*program, name@, any) by {
                                    assert(has_field(*program, name@, t, before as int));
                                    assert(has_field(*program, name@, s as int, at as int));
                                }
                            }
                            return None;
                        }
                    },
                }
            },
        }
        s = s + 1;
    }
    proof {
        match found {
            Some(at) => {
                assert(settles(*program, name@, at as int));
            },
            None => {
                assert forall|at: int| !settles(*program, name@, at) by {
                    if settles(*program, name@, at) {
                        let t = choose|t: int| has_field(*program, name@, t, at);
                        assert(has_field(*program, name@, t, at));
                    }
                }
            },
        }
    }
    found
}

/// For every constant that names a field some instruction writes, the one
/// position every struct with that field keeps it at; nothing for any other.
pub open spec fn positions_are(program: Program, positions: Seq<Option<usize>>) -> bool {
    &&& positions.len() == program.constants@.len()
    &&& forall|id: ConstId|
        id.0 < positions.len() ==> match #[trigger] positions[id.0 as int] {
            Some(at) => writes(program, id) && settles(program, program.name_text(id), at as int),
            None => !writes(program, id) || forall|at: int|
                !settles(program, program.name_text(id), at),
        }
}

/// Where every field written by name stands, indexed by the constant that
/// names it.
pub fn field_positions(program: &Program) -> (positions: Vec<Option<usize>>)
    requires
        forall|f: int, pc: int|
            0 <= f < program.functions@.len() && 0 <= pc < program.functions@[f].code@.len()
                ==> crate::ir::names_what_exists(
                *program,
                #[trigger] program.functions@[f].code@[pc],
            ),
    ensures
        positions_are(*program, positions@),
{
    let mut positions: Vec<Option<usize>> = Vec::new();
    while positions.len() < program.constants.len()
        invariant
            positions@.len() <= program.constants@.len(),
            forall|i: int| 0 <= i < positions@.len() ==> (#[trigger] positions@[i]) is None,
        decreases program.constants@.len() - positions@.len(),
    {
        positions.push(None);
    }
    let mut f: usize = 0;
    while f < program.functions.len()
        invariant
            f <= program.functions@.len(),
            positions@.len() == program.constants@.len(),
            forall|f: int, pc: int|
                0 <= f < program.functions@.len() && 0 <= pc < program.functions@[f].code@.len()
                    ==> crate::ir::names_what_exists(
                    *program,
                    #[trigger] program.functions@[f].code@[pc],
                ),
            filled(*program, positions@, f as int, 0),
        decreases program.functions@.len() - f,
    {
        let function = &program.functions[f];
        let mut pc: usize = 0;
        while pc < function.code.len()
            invariant
                f < program.functions@.len(),
                *function == program.functions@[f as int],
                pc <= function.code@.len(),
                positions@.len() == program.constants@.len(),
                forall|f: int, pc: int|
                    0 <= f < program.functions@.len() && 0 <= pc
                        < program.functions@[f].code@.len() ==> crate::ir::names_what_exists(
                        *program,
                        #[trigger] program.functions@[f].code@[pc],
                    ),
                filled(*program, positions@, f as int, pc as int),
            decreases function.code@.len() - pc,
        {
            let inst: Inst = function.code[pc];
            proof {
                assert(crate::ir::names_what_exists(
                    *program,
                    program.functions@[f as int].code@[pc as int],
                ));
            }
            let ghost earlier = positions@;
            if let Inst::SetField(id) = inst {
                positions.set(id.0 as usize, field_position(program, program.const_name(id)));
                proof {
                    assert(writes_at(*program, id, f as int, pc as int));
                }
            }
            proof {
                assert forall|id: ConstId| id.0 < positions@.len() implies {
                    if #[trigger] written_before(*program, id, f as int, pc + 1) {
                        match positions@[id.0 as int] {
                            Some(at) => settles(*program, program.name_text(id), at as int),
                            None => forall|at: int|
                                !settles(*program, program.name_text(id), at),
                        }
                    } else {
                        positions@[id.0 as int] is None
                    }
                } by {
                    assert(written_before(*program, id, f as int, pc + 1) == (written_before(
                        *program,
                        id,
                        f as int,
                        pc as int,
                    ) || inst == Inst::SetField(id))) by {
                        if written_before(*program, id, f as int, pc as int) {
                            let (g, q) = choose|g: int, q: int|
                                (g < f || (g == f && q < pc)) && #[trigger] writes_at(
                                    *program,
                                    id,
                                    g,
                                    q,
                                );
                            assert(writes_at(*program, id, g, q));
                        }
                    }
                    if inst != Inst::SetField(id) {
                        assert(positions@[id.0 as int] == earlier[id.0 as int]);
                    }
                }
            }
            pc = pc + 1;
        }
        proof {
            assert forall|id: ConstId| #[trigger]
                written_before(*program, id, f + 1, 0) == written_before(
                    *program,
                    id,
                    f as int,
                    function.code@.len() as int,
                ) by {
                if written_before(*program, id, f + 1, 0) {
                    let (g, q) = choose|g: int, q: int|
                        (g < f + 1 || (g == f + 1 && q < 0)) && #[trigger] writes_at(
                            *program,
                            id,
                            g,
                            q,
                        );
                    assert(writes_at(*program, id, g, q));
                }
                if written_before(*program, id, f as int, function.code@.len() as int) {
                    let (g, q) = choose|g: int, q: int|
                        (g < f || (g == f && q < function.code@.len())) && #[trigger] writes_at(
                            *program,
                            id,
                            g,
                            q,
                        );
                    assert(writes_at(*program, id, g, q));
                }
            }
        }
        f = f + 1;
    }
    proof {
        assert forall|id: ConstId| #[trigger]
            written_before(*program, id, f as int, 0) == writes(*program, id) by {
            if writes(*program, id) {
                let (g, q) = choose|g: int, q: int| writes_at(*program, id, g, q);
                assert(g < f && writes_at(*program, id, g, q));
            }
            if written_before(*program, id, f as int, 0) {
                let (g, q) = choose|g: int, q: int|
                    (g < f || (g == f && q < 0)) && #[trigger] writes_at(*program, id, g, q);
                assert(writes_at(*program, id, g, q));
            }
        }
        assert forall|id: ConstId| id.0 < positions@.len() implies match #[trigger] positions@[
        id.0 as int] {
            Some(at) => writes(*program, id) && settles(
                *program,
                program.name_text(id),
                at as int,
            ),
            None => !writes(*program, id) || forall|at: int|
                !settles(*program, program.name_text(id), at),
        } by {
            assert(written_before(*program, id, f as int, 0) == writes(*program, id));
        }
    }
    positions
}

/// An instruction before `pc` of function `f` writes the field `id` names.
spec fn written_before(program: Program, id: ConstId, f: int, pc: int) -> bool {
    exists|g: int, q: int|
        (g < f || (g == f && q < pc)) && #[trigger] writes_at(program, id, g, q)
}

/// The positions of the fields written before `pc` of function `f`.
spec fn filled(program: Program, positions: Seq<Option<usize>>, f: int, pc: int) -> bool {
    forall|id: ConstId|
        id.0 < positions.len() ==> {
            if #[trigger] written_before(program, id, f, pc) {
                match positions[id.0 as int] {
                    Some(at) => settles(program, program.name_text(id), at as int),
                    None => forall|at: int| !settles(program, program.name_text(id), at),
                }
            } else {
                positions[id.0 as int] is None
            }
        }
}

/// The word of a constant that has one of its own.
pub open spec fn word_of(constant: Const) -> u64 {
    match constant {
        Const::Bool(value) => crate::frame::word::bool_word(value),
        Const::Int(value) => crate::frame::word::int_word(value as int) as u64,
        Const::Float { bits, shown: _ } => bits,
        _ => 0,
    }
}

/// The word a scalar constant is. A text's is a handle, and not this
/// function's to make; a name and a duration have none, and answer zero.
pub fn const_word(constant: &Const) -> (word: u64)
    requires
        !(constant is Str),
    ensures
        word == word_of(*constant),
{
    match constant {
        Const::Bool(value) => Word::of_bool(*value),
        Const::Int(value) => Word::of_int(*value),
        Const::Float { bits, shown: _ } => *bits,
        _ => 0,
    }
}

/// A field that is written by name stands where every struct that has one of
/// that name has it; and there is one such place at most.
pub proof fn a_field_settles_at_one_place(
    program: Program,
    name: Seq<char>,
    at: int,
    other: int,
)
    requires
        settles(program, name, at),
    ensures
        settles(program, name, other) ==> other == at,
        exists|s: int|
            0 <= s < program.structs@.len() && 0 <= at < (
            #[trigger] program.structs@[s]).fields@.len() && program.structs@[s].fields@[at].name@
                == name,
        forall|s: int|
            0 <= s < program.structs@.len() && (exists|j: int|
                0 <= j < program.structs@[s].fields@.len() && (
                #[trigger] program.structs@[s].fields@[j]).name@ == name) ==> at < (
            #[trigger] program.structs@[s]).fields@.len() && program.structs@[s].fields@[at].name@
                == name,
{
    let s = choose|s: int| has_field(program, name, s, at);
    assert(program.structs@[s].fields@[at].name@ == name);
    if settles(program, name, other) {
        assert(has_field(program, name, s, at));
    }
    assert forall|s: int|
        0 <= s < program.structs@.len() && (exists|j: int|
            0 <= j < program.structs@[s].fields@.len() && (
            #[trigger] program.structs@[s].fields@[j]).name@ == name) implies at < (
    #[trigger] program.structs@[s]).fields@.len() && program.structs@[s].fields@[at].name@
        == name by {
        let j = choose|j: int|
            0 <= j < program.structs@[s].fields@.len() && (
            #[trigger] program.structs@[s].fields@[j]).name@ == name;
        let k = lemma_the_first_so_called(program.structs@[s], name, j);
        assert(has_field(program, name, s, k));
    }
}

proof fn lemma_the_first_so_called(declared: StructType, name: Seq<char>, j: int) -> (k: int)
    requires
        0 <= j < declared.fields@.len(),
        declared.fields@[j].name@ == name,
    ensures
        field_at(declared, name, k),
    decreases j,
{
    if exists|i: int| 0 <= i < j && (#[trigger] declared.fields@[i]).name@ == name {
        let i = choose|i: int| 0 <= i < j && (#[trigger] declared.fields@[i]).name@ == name;
        lemma_the_first_so_called(declared, name, i)
    } else {
        j
    }
}

/// A constructor call of one word builds `Ok`, `Err` or `Some`, and one of none
/// builds `None`, each of its own type; nothing else builds a case.
pub proof fn a_constructor_builds_the_case_it_is_called_after(name: Seq<char>, argc: int)
    ensures
        builtin_case("Ok"@, 1) == Some(("Result"@, "Ok"@)),
        builtin_case("Err"@, 1) == Some(("Result"@, "Err"@)),
        builtin_case("Some"@, 1) == Some(("Option"@, "Some"@)),
        builtin_case("None"@, 0) == Some(("Option"@, "None"@)),
        builtin_case(name, argc) is Some <==> (argc == 1 && (name == "Ok"@ || name == "Err"@ || name
            == "Some"@) || argc == 0 && name == "None"@),
        crate::frame::kinds::builds_builtin_case(name, argc) <==> builtin_case(name, argc) is Some,
{
    reveal_strlit("Ok");
    reveal_strlit("Err");
    reveal_strlit("Some");
    reveal_strlit("None");
    assert("Ok"@.len() != "Err"@.len());
    assert("Ok"@.len() != "Some"@.len());
    assert("Err"@.len() != "Some"@.len());
}

} // verus!
