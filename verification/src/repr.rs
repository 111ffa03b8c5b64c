//! Validation of `#[repr(...)]` attributes for the zerocopy derives.
//!
//! The derive macro hands this module the attributes of the input type as
//! plain values (`AttrMeta`); the module parses the representation hints,
//! puts them in canonical order and checks them against a `Config`.
use vstd::prelude::*;
use vstd::multiset::Multiset;
use vstd::string::*;

verus! {

/// All representations known to Rust.
#[derive(Copy, Clone, Debug, PartialEq, Eq, Structural)]
pub enum Repr {
    U8,
    U16,
    U32,
    U64,
    Usize,
    I8,
    I16,
    I32,
    I64,
    Isize,
    C,
    Transparent,
    Packed,
    Align(u64),
}

/// An argument inside a list-shaped hint such as `align(8)`.
#[derive(Clone, Debug, PartialEq, Eq)]
pub enum MetaArg {
    /// An integer literal.
    Int(u64),
    /// Anything else.
    Other,
}

/// One hint inside `#[repr(...)]`.
#[derive(Clone, Debug, PartialEq, Eq)]
pub enum NestedMeta {
    /// A bare word such as `C` or `u8`.
    Word(String),
    /// A word followed by a parenthesised list, such as `align(8)`.
    List(Vec<MetaArg>),
    /// Anything else (a literal, a `name = value` pair).
    Other,
}

/// An attribute of the input type, as far as the checks read it.
#[derive(Clone, Debug, PartialEq, Eq)]
pub enum AttrMeta {
    /// A list-shaped attribute `#[ident(nested, ...)]`.
    List { ident: String, nested: Vec<NestedMeta> },
    /// Any other attribute.
    Other,
}

/// What went wrong in a set of representation hints.
#[derive(Copy, Clone, Debug, PartialEq, Eq, Structural)]
pub enum ReprErrorKind {
    /// A hint that Rust does not know ("unrecognized representation hint").
    UnrecognizedHint,
    /// A hint that Rust knows but that the kind of type does not support.
    UnsupportedHint,
    /// `repr(align(N))` with `N > 1` on a type deriving `Unaligned`.
    AlignAboveOneForUnaligned,
    /// No `repr` other than `align` was given.
    MissingNonAlignRepr,
    /// A combination that Rust accepts but that the derive does not.
    DisallowedCombination,
    /// A combination that Rust rejects or leaves unspecified.
    ConflictingHints,
}

/// Where an error is to be reported.
#[derive(Copy, Clone, Debug, PartialEq, Eq, Structural)]
pub enum ErrorSite {
    /// At hint `nested` of attribute `attr`.
    Hint { attr: usize, nested: usize },
    /// At the whole input type.
    Input,
    /// At the derive invocation itself.
    CallSite,
}

#[derive(Copy, Clone, Debug, PartialEq, Eq, Structural)]
pub struct ReprError {
    pub kind: ReprErrorKind,
    pub site: ErrorSite,
}

/// The representation that a bare word names.
pub open spec fn spec_word_repr(w: Seq<char>) -> Option<Repr> {
    if w == "u8"@ {
        Some(Repr::U8)
    } else if w == "u16"@ {
        Some(Repr::U16)
    } else if w == "u32"@ {
        Some(Repr::U32)
    } else if w == "u64"@ {
        Some(Repr::U64)
    } else if w == "usize"@ {
        Some(Repr::Usize)
    } else if w == "i8"@ {
        Some(Repr::I8)
    } else if w == "i16"@ {
        Some(Repr::I16)
    } else if w == "i32"@ {
        Some(Repr::I32)
    } else if w == "i64"@ {
        Some(Repr::I64)
    } else if w == "isize"@ {
        Some(Repr::Isize)
    } else if w == "C"@ {
        Some(Repr::C)
    } else if w == "transparent"@ {
        Some(Repr::Transparent)
    } else if w == "packed"@ {
        Some(Repr::Packed)
    } else {
        None
    }
}

/// The representation that a hint names: a known word, or a list holding
/// exactly one integer literal (`align(N)`).
pub open spec fn spec_hint_repr(meta: NestedMeta) -> Option<Repr> {
    match meta {
        NestedMeta::Word(w) => spec_word_repr(w@),
        NestedMeta::List(args) => {
            if args@.len() == 1 && args@[0] is Int {
                Some(Repr::Align(args@[0]->Int_0))
            } else {
                None
            }
        },
        NestedMeta::Other => None,
    }
}

/// Whether `s` holds exactly the characters of `lit`.
fn is_word(s: &String, lit: &str) -> (b: bool)
    ensures
        b == (s@ == lit@),
{
    let owned = String::from_str(lit);
    *s == owned
}

impl Repr {
    /// Parses one hint of a `#[repr(...)]` attribute.
    pub fn from_nested_meta(meta: &NestedMeta) -> (r: Result<Repr, ReprErrorKind>)
        ensures
            r == (match spec_hint_repr(*meta) {
                Some(x) => Ok(x),
                None => Err(ReprErrorKind::UnrecognizedHint),
            }),
    {
        match meta {
            NestedMeta::Word(word) => {
                if is_word(word, "u8") {
                    return Ok(Repr::U8);
                } else if is_word(word, "u16") {
                    return Ok(Repr::U16);
                } else if is_word(word, "u32") {
                    return Ok(Repr::U32);
                } else if is_word(word, "u64") {
                    return Ok(Repr::U64);
                } else if is_word(word, "usize") {
                    return Ok(Repr::Usize);
                } else if is_word(word, "i8") {
                    return Ok(Repr::I8);
                } else if is_word(word, "i16") {
                    return Ok(Repr::I16);
                } else if is_word(word, "i32") {
                    return Ok(Repr::I32);
                } else if is_word(word, "i64") {
                    return Ok(Repr::I64);
                } else if is_word(word, "isize") {
                    return Ok(Repr::Isize);
                } else if is_word(word, "C") {
                    return Ok(Repr::C);
                } else if is_word(word, "transparent") {
                    return Ok(Repr::Transparent);
                } else if is_word(word, "packed") {
                    return Ok(Repr::Packed);
                }
            },
            NestedMeta::List(args) => {
                if args.len() == 1 {
                    match &args[0] {
                        MetaArg::Int(n) => {
                            return Ok(Repr::Align(*n));
                        },
                        MetaArg::Other => {},
                    }
                }
            },
            NestedMeta::Other => {},
        }
        Err(ReprErrorKind::UnrecognizedHint)
    }
}


/// Lexicographic order on texts, character by character; a proper prefix
/// comes first.
pub open spec fn text_less(a: Seq<char>, b: Seq<char>) -> bool
    decreases a.len(),
{
    if a.len() == 0 {
        b.len() > 0
    } else if b.len() == 0 {
        false
    } else if a[0] != b[0] {
        (a[0] as u32) < (b[0] as u32)
    } else {
        text_less(a.drop_first(), b.drop_first())
    }
}

/// The debug text of `Align(n)`.
pub open spec fn align_debug_text(n: u64) -> Seq<char> {
    seq!['A', 'l', 'i', 'g', 'n', '('] + decimal(n as nat) + seq![')']
}

/// How a hint parses for a kind of type: errors from `Repr::from_nested_meta`
/// pass through, and a known representation that the kind does not support
/// is an `UnsupportedHint`.
pub open spec fn spec_parse_hint<R: KindRepr>(meta: NestedMeta) -> Result<R, ReprErrorKind> {
    match spec_hint_repr(meta) {
        None => Err(ReprErrorKind::UnrecognizedHint),
        Some(r) => match R::spec_of_repr(r) {
            Some(x) => Ok(x),
            None => Err(ReprErrorKind::UnsupportedHint),
        },
    }
}

/// The representations that are valid for a given kind of type (enum,
/// struct, union), with a canonical order on them.
pub trait KindRepr: 'static + Sized + Copy {
    /// The variant of this kind that stands for `r`, if the kind supports it.
    spec fn spec_of_repr(r: Repr) -> Option<Self>;

    /// `Some(n)` for `Align(n)`, `None` for every other variant.
    spec fn spec_align(self) -> Option<u64>;

    /// Position in the canonical order: `0` for `Align`, and for the other
    /// variants `1..=spec_max_rank()`, following the order of their names.
    spec fn spec_rank(self) -> nat;

    spec fn spec_max_rank() -> nat;

    /// The text that `{:?}` shows for the variant.
    spec fn spec_debug_text(self) -> Seq<char>;

    /// The canonical order is the order of the variants' debug texts, in
    /// which every `Align` comes first.
    proof fn lemma_rank_follows_debug_text(x: Self, y: Self)
        ensures
            x.spec_rank() < y.spec_rank() ==> text_less(x.spec_debug_text(), y.spec_debug_text()),
    ;

    proof fn lemma_rank_range(x: Self)
        ensures
            x.spec_align() is None <==> (1 <= x.spec_rank() <= Self::spec_max_rank()),
    ;

    /// Two variants other than `Align` with the same rank are the same.
    proof fn lemma_rank_injective(x: Self, y: Self)
        requires
            x.spec_align() is None,
            y.spec_align() is None,
            x.spec_rank() == y.spec_rank(),
        ensures
            x == y,
    ;

    fn max_rank() -> (n: u8)
        ensures
            n == Self::spec_max_rank(),
    ;

    fn rank(&self) -> (n: u8)
        ensures
            n == self.spec_rank(),
    ;

    fn same(&self, other: &Self) -> (b: bool)
        ensures
            b == (*self == *other),
    ;

    fn is_align(&self) -> (b: bool)
        ensures
            b == self.spec_align() is Some,
    ;

    fn is_align_gt_one(&self) -> (b: bool)
        ensures
            b == (self.spec_align() matches Some(n) && n > 1),
    ;

    fn parse(meta: &NestedMeta) -> (r: Result<Self, ReprErrorKind>)
        ensures
            r == (match spec_hint_repr(*meta) {
                None => Err(ReprErrorKind::UnrecognizedHint),
                Some(x) => match Self::spec_of_repr(x) {
                    Some(y) => Ok(y),
                    None => Err(ReprErrorKind::UnsupportedHint),
                },
            }),
    ;

    /// How the kind of type is named in error messages ("a struct").
    fn kind_label() -> &'static str;
}

/// Representations valid on a struct.
#[derive(Copy, Clone, Debug, PartialEq, Eq, Structural)]
pub enum StructRepr {
    C,
    Transparent,
    Packed,
    Align(u64),
}

impl KindRepr for StructRepr {
    open spec fn spec_of_repr(r: Repr) -> Option<Self> {
        match r {
            Repr::C => Some(StructRepr::C),
            Repr::Transparent => Some(StructRepr::Transparent),
            Repr::Packed => Some(StructRepr::Packed),
            Repr::Align(n) => Some(StructRepr::Align(n)),
            _ => None,
        }
    }

    open spec fn spec_align(self) -> Option<u64> {
        match self {
            StructRepr::Align(n) => Some(n),
            _ => None,
        }
    }

    open spec fn spec_rank(self) -> nat {
        match self {
            StructRepr::Align(_) => 0,
            StructRepr::C => 1,
            StructRepr::Packed => 2,
            StructRepr::Transparent => 3,
        }
    }

    open spec fn spec_max_rank() -> nat {
        3
    }

    open spec fn spec_debug_text(self) -> Seq<char> {
        match self {
            StructRepr::Align(n) => align_debug_text(n),
            StructRepr::C => seq!['C'],
            StructRepr::Packed => seq!['P', 'a', 'c', 'k', 'e', 'd'],
            StructRepr::Transparent => seq!['T', 'r', 'a', 'n', 's', 'p', 'a', 'r', 'e', 'n', 't'],
        }
    }

    proof fn lemma_rank_follows_debug_text(x: Self, y: Self) {
        reveal_with_fuel(text_less, 2);
    }

    proof fn lemma_rank_range(x: Self) {
    }

    proof fn lemma_rank_injective(x: Self, y: Self) {
    }

    fn max_rank() -> (n: u8) {
        3
    }

    fn rank(&self) -> (n: u8) {
        match self {
            StructRepr::Align(_) => 0,
            StructRepr::C => 1,
            StructRepr::Packed => 2,
            StructRepr::Transparent => 3,
        }
    }

    fn same(&self, other: &Self) -> (b: bool) {
        *self == *other
    }

    fn is_align(&self) -> (b: bool) {
        match self {
            StructRepr::Align(_) => true,
            _ => false,
        }
    }

    fn is_align_gt_one(&self) -> (b: bool) {
        match self {
            StructRepr::Align(n) => *n > 1,
            _ => false,
        }
    }

    fn parse(meta: &NestedMeta) -> (r: Result<Self, ReprErrorKind>) {
        match Repr::from_nested_meta(meta) {
            Ok(Repr::C) => Ok(StructRepr::C),
            Ok(Repr::Transparent) => Ok(StructRepr::Transparent),
            Ok(Repr::Packed) => Ok(StructRepr::Packed),
            Ok(Repr::Align(n)) => Ok(StructRepr::Align(n)),
            Ok(_) => Err(ReprErrorKind::UnsupportedHint),
            Err(e) => Err(e),
        }
    }

    fn kind_label() -> (s: &'static str)
        ensures
            s@ == "a struct"@,
    {
        "a struct"
    }
}

/// Representations valid on an enum.
#[derive(Copy, Clone, Debug, PartialEq, Eq, Structural)]
pub enum EnumRepr {
    C,
    U8,
    U16,
    U32,
    U64,
    Usize,
    I8,
    I16,
    I32,
    I64,
    Isize,
    Align(u64),
}

impl KindRepr for EnumRepr {
    open spec fn spec_of_repr(r: Repr) -> Option<Self> {
        match r {
            Repr::C => Some(EnumRepr::C),
            Repr::U8 => Some(EnumRepr::U8),
            Repr::U16 => Some(EnumRepr::U16),
            Repr::U32 => Some(EnumRepr::U32),
            Repr::U64 => Some(EnumRepr::U64),
            Repr::Usize => Some(EnumRepr::Usize),
            Repr::I8 => Some(EnumRepr::I8),
            Repr::I16 => Some(EnumRepr::I16),
            Repr::I32 => Some(EnumRepr::I32),
            Repr::I64 => Some(EnumRepr::I64),
            Repr::Isize => Some(EnumRepr::Isize),
            Repr::Align(n) => Some(EnumRepr::Align(n)),
            _ => None,
        }
    }

    open spec fn spec_align(self) -> Option<u64> {
        match self {
            EnumRepr::Align(n) => Some(n),
            _ => None,
        }
    }

    open spec fn spec_rank(self) -> nat {
        match self {
            EnumRepr::Align(_) => 0,
            EnumRepr::C => 1,
            EnumRepr::I16 => 2,
            EnumRepr::I32 => 3,
            EnumRepr::I64 => 4,
            EnumRepr::I8 => 5,
            EnumRepr::Isize => 6,
            EnumRepr::U16 => 7,
            EnumRepr::U32 => 8,
            EnumRepr::U64 => 9,
            EnumRepr::U8 => 10,
            EnumRepr::Usize => 11,
        }
    }

    open spec fn spec_max_rank() -> nat {
        11
    }

    open spec fn spec_debug_text(self) -> Seq<char> {
        match self {
            EnumRepr::Align(n) => align_debug_text(n),
            EnumRepr::C => seq!['C'],
            EnumRepr::I16 => seq!['I', '1', '6'],
            EnumRepr::I32 => seq!['I', '3', '2'],
            EnumRepr::I64 => seq!['I', '6', '4'],
            EnumRepr::I8 => seq!['I', '8'],
            EnumRepr::Isize => seq!['I', 's', 'i', 'z', 'e'],
            EnumRepr::U16 => seq!['U', '1', '6'],
            EnumRepr::U32 => seq!['U', '3', '2'],
            EnumRepr::U64 => seq!['U', '6', '4'],
            EnumRepr::U8 => seq!['U', '8'],
            EnumRepr::Usize => seq!['U', 's', 'i', 'z', 'e'],
        }
    }

    proof fn lemma_rank_follows_debug_text(x: Self, y: Self) {
        reveal_with_fuel(text_less, 3);
    }

    proof fn lemma_rank_range(x: Self) {
    }

    proof fn lemma_rank_injective(x: Self, y: Self) {
    }

    fn max_rank() -> (n: u8) {
        11
    }

    fn rank(&self) -> (n: u8) {
        match self {
            EnumRepr::Align(_) => 0,
            EnumRepr::C => 1,
            EnumRepr::I16 => 2,
            EnumRepr::I32 => 3,
            EnumRepr::I64 => 4,
            EnumRepr::I8 => 5,
            EnumRepr::Isize => 6,
            EnumRepr::U16 => 7,
            EnumRepr::U32 => 8,
            EnumRepr::U64 => 9,
            EnumRepr::U8 => 10,
            EnumRepr::Usize => 11,
        }
    }

    fn same(&self, other: &Self) -> (b: bool) {
        *self == *other
    }

    fn is_align(&self) -> (b: bool) {
        match self {
            EnumRepr::Align(_) => true,
            _ => false,
        }
    }

    fn is_align_gt_one(&self) -> (b: bool) {
        match self {
            EnumRepr::Align(n) => *n > 1,
            _ => false,
        }
    }

    fn parse(meta: &NestedMeta) -> (r: Result<Self, ReprErrorKind>) {
        match Repr::from_nested_meta(meta) {
            Ok(Repr::C) => Ok(EnumRepr::C),
            Ok(Repr::U8) => Ok(EnumRepr::U8),
            Ok(Repr::U16) => Ok(EnumRepr::U16),
            Ok(Repr::U32) => Ok(EnumRepr::U32),
            Ok(Repr::U64) => Ok(EnumRepr::U64),
            Ok(Repr::Usize) => Ok(EnumRepr::Usize),
            Ok(Repr::I8) => Ok(EnumRepr::I8),
            Ok(Repr::I16) => Ok(EnumRepr::I16),
            Ok(Repr::I32) => Ok(EnumRepr::I32),
            Ok(Repr::I64) => Ok(EnumRepr::I64),
            Ok(Repr::Isize) => Ok(EnumRepr::Isize),
            Ok(Repr::Align(n)) => Ok(EnumRepr::Align(n)),
            Ok(_) => Err(ReprErrorKind::UnsupportedHint),
            Err(e) => Err(e),
        }
    }

    fn kind_label() -> (s: &'static str)
        ensures
            s@ == "an enum"@,
    {
        "an enum"
    }
}


/// The outcomes of parsing the hints of attribute number `i`: one per hint of
/// a `#[repr(...)]` attribute, none for any other attribute.
pub open spec fn attr_outcomes<R: KindRepr>(i: int, attr: AttrMeta) -> Seq<Result<R, ReprError>> {
    match attr {
        AttrMeta::List { ident, nested } => {
            if ident@ == "repr"@ {
                Seq::new(
                    nested@.len(),
                    |j: int|
                        match spec_parse_hint::<R>(nested@[j]) {
                            Ok(x) => Ok(x),
                            Err(k) => Err(
                                ReprError {
                                    kind: k,
                                    site: ErrorSite::Hint { attr: i as usize, nested: j as usize },
                                },
                            ),
                        },
                )
            } else {
                Seq::empty()
            }
        },
        AttrMeta::Other => Seq::empty(),
    }
}

/// The outcomes of parsing every representation hint, in attribute order.
pub open spec fn hint_outcomes<R: KindRepr>(attrs: Seq<AttrMeta>) -> Seq<Result<R, ReprError>>
    decreases attrs.len(),
{
    if attrs.len() == 0 {
        Seq::empty()
    } else {
        hint_outcomes::<R>(attrs.drop_last()) + attr_outcomes::<R>(attrs.len() - 1, attrs.last())
    }
}

/// The successfully parsed values among `s`, in order.
pub open spec fn oks<T, E>(s: Seq<Result<T, E>>) -> Seq<T>
    decreases s.len(),
{
    if s.len() == 0 {
        Seq::empty()
    } else {
        match s.last() {
            Ok(x) => oks(s.drop_last()).push(x),
            Err(_) => oks(s.drop_last()),
        }
    }
}

/// The errors among `s`, in order.
pub open spec fn errs<T, E>(s: Seq<Result<T, E>>) -> Seq<E>
    decreases s.len(),
{
    if s.len() == 0 {
        Seq::empty()
    } else {
        match s.last() {
            Ok(_) => errs(s.drop_last()),
            Err(e) => errs(s.drop_last()).push(e),
        }
    }
}

/// All representation hints of `attrs` parsed, or every error found.
pub open spec fn spec_reprs<R: KindRepr>(attrs: Seq<AttrMeta>) -> Result<Seq<R>, Seq<ReprError>> {
    let o = hint_outcomes::<R>(attrs);
    if errs(o).len() > 0 {
        Err(errs(o))
    } else {
        Ok(oks(o))
    }
}

proof fn lemma_outcomes_step<T, E>(s: Seq<Result<T, E>>, t: Seq<Result<T, E>>, j: int)
    requires
        0 <= j < t.len(),
    ensures
        (s + t.take(j + 1)).drop_last() == s + t.take(j),
        (s + t.take(j + 1)).last() == t[j],
{
    assert((s + t.take(j + 1)).drop_last() =~= s + t.take(j));
}

/// Parses every representation hint of every `#[repr(...)]` attribute,
/// collecting all errors.
pub fn reprs<R: KindRepr>(attrs: &[AttrMeta]) -> (res: Result<Vec<R>, Vec<ReprError>>)
    ensures
        result_view(res) == spec_reprs::<R>(attrs@),
{
    let mut parsed: Vec<R> = Vec::new();
    let mut errors: Vec<ReprError> = Vec::new();
    let n = attrs.len();
    let mut i: usize = 0;
    while i < n
        invariant
            n == attrs@.len(),
            i <= n,
            parsed@ == oks(hint_outcomes::<R>(attrs@.take(i as int))),
            errors@ == errs(hint_outcomes::<R>(attrs@.take(i as int))),
        decreases n - i,
    {
        let ghost before = hint_outcomes::<R>(attrs@.take(i as int));
        let ghost here = attr_outcomes::<R>(i as int, attrs@[i as int]);
        proof {
            assert(attrs@.take(i + 1).drop_last() =~= attrs@.take(i as int));
            assert(hint_outcomes::<R>(attrs@.take(i + 1)) == before + here);
            assert(before + here.take(0) =~= before);
        }
        match &attrs[i] {
            AttrMeta::List { ident, nested } => {
                if is_word(ident, "repr") {
                    let m = nested.len();
                    let mut j: usize = 0;
                    while j < m
                        invariant
                            m == nested@.len(),
                            j <= m,
                            here == attr_outcomes::<R>(i as int, attrs@[i as int]),
                            attrs@[i as int] == (AttrMeta::List { ident: *ident, nested: *nested }),
                            ident@ == "repr"@,
                            here.len() == m,
                            parsed@ == oks(before + here.take(j as int)),
                            errors@ == errs(before + here.take(j as int)),
                        decreases m - j,
                    {
                        proof {
                            lemma_outcomes_step(before, here, j as int);
                        }
                        match R::parse(&nested[j]) {
                            Ok(x) => {
                                parsed.push(x);
                            },
                            Err(kind) => {
                                errors.push(ReprError { kind, site: ErrorSite::Hint { attr: i, nested: j } });
                            },
                        }
                        j = j + 1;
                    }
                    proof {
                        assert(here.take(m as int) =~= here);
                    }
                } else {
                    assert(here =~= Seq::<Result<R, ReprError>>::empty());
                    assert(before + here =~= before);
                }
            },
            AttrMeta::Other => {
                assert(before + here =~= before);
            },
        }
        i = i + 1;
    }
    proof {
        assert(attrs@.take(n as int) =~= attrs@);
    }
    if errors.len() > 0 {
        Err(errors)
    } else {
        Ok(parsed)
    }
}


/// A result holding vectors, seen through the vectors' contents.
pub open spec fn result_view<T, E>(r: Result<Vec<T>, Vec<E>>) -> Result<Seq<T>, Seq<E>> {
    match r {
        Ok(v) => Ok(v@),
        Err(e) => Err(e@),
    }
}

/// The variants of rank `k` among `rs` (never an `Align`), in their order in `rs`.
pub open spec fn rank_group<R: KindRepr>(rs: Seq<R>, k: nat) -> Seq<R>
    decreases rs.len(),
{
    if rs.len() == 0 {
        Seq::empty()
    } else {
        let x = rs.last();
        if x.spec_align() is None && x.spec_rank() == k {
            rank_group(rs.drop_last(), k).push(x)
        } else {
            rank_group(rs.drop_last(), k)
        }
    }
}

/// The variants of `rs` of rank `1..=k`, grouped by rank in increasing order.
pub open spec fn grouped<R: KindRepr>(rs: Seq<R>, k: nat) -> Seq<R>
    decreases k,
{
    if k == 0 {
        Seq::empty()
    } else {
        grouped(rs, (k - 1) as nat) + rank_group(rs, k)
    }
}

/// The canonical form of a list of representations: `Align` dropped and the
/// rest stably sorted by rank.
pub open spec fn canonical<R: KindRepr>(rs: Seq<R>) -> Seq<R> {
    grouped(rs, R::spec_max_rank())
}

/// Puts `rs` in canonical form.
pub fn canonical_order<R: KindRepr>(rs: &Vec<R>) -> (out: Vec<R>)
    ensures
        out@ == canonical(rs@),
{
    let max: u16 = R::max_rank() as u16;
    let n = rs.len();
    let mut out: Vec<R> = Vec::new();
    let mut k: u16 = 1;
    while k <= max
        invariant
            max == R::spec_max_rank(),
            max < 256,
            1 <= k <= max + 1,
            n == rs@.len(),
            out@ == grouped(rs@, (k - 1) as nat),
        decreases max + 1 - k,
    {
        let ghost prefix = out@;
        let mut i: usize = 0;
        while i < n
            invariant
                n == rs@.len(),
                i <= n,
                k < 256,
                out@ == prefix + rank_group(rs@.take(i as int), k as nat),
            decreases n - i,
        {
            let x = rs[i];
            proof {
                assert(rs@.take(i + 1).drop_last() =~= rs@.take(i as int));
            }
            if !x.is_align() && x.rank() as u16 == k {
                out.push(x);
                assert(out@ =~= prefix + rank_group(rs@.take(i + 1), k as nat));
            }
            i = i + 1;
        }
        proof {
            assert(rs@.take(n as int) =~= rs@);
        }
        k = k + 1;
    }
    out
}

/// Whether two lists of representations are the same.
fn same_reprs<R: KindRepr>(a: &[R], b: &[R]) -> (r: bool)
    ensures
        r == (a@ == b@),
{
    if a.len() != b.len() {
        return false;
    }
    let n = a.len();
    let mut i: usize = 0;
    while i < n
        invariant
            n == a@.len(),
            n == b@.len(),
            i <= n,
            forall|j: int| 0 <= j < i ==> a@[j] == b@[j],
        decreases n - i,
    {
        if !a[i].same(&b[i]) {
            return false;
        }
        i = i + 1;
    }
    assert(a@ =~= b@);
    true
}

/// The lists of a table of combinations.
pub open spec fn combos<R>(table: &[&[R]]) -> Seq<Seq<R>> {
    Seq::new(table@.len(), |i: int| table@[i]@)
}

/// Whether `c` is one of the combinations in `table`.
fn has_combo<R: KindRepr>(table: &[&[R]], c: &[R]) -> (r: bool)
    ensures
        r == combos(table).contains(c@),
{
    let n = table.len();
    let mut i: usize = 0;
    while i < n
        invariant
            n == table@.len(),
            i <= n,
            forall|j: int| 0 <= j < i ==> table@[j]@ != c@,
        decreases n - i,
    {
        if same_reprs(table[i], c) {
            assert(combos(table)[i as int] == c@);
            return true;
        }
        i = i + 1;
    }
    false
}

pub open spec fn align_above_one<R: KindRepr>(x: R) -> bool {
    x.spec_align() matches Some(n) && n > 1
}

/// Whether some representation in `rs` is `align(N)` with `N > 1`.
fn any_align_above_one<R: KindRepr>(rs: &Vec<R>) -> (r: bool)
    ensures
        r == exists|i: int| 0 <= i < rs@.len() && align_above_one(#[trigger] rs@[i]),
{
    let n = rs.len();
    let mut i: usize = 0;
    while i < n
        invariant
            n == rs@.len(),
            i <= n,
            forall|j: int| 0 <= j < i ==> !align_above_one(#[trigger] rs@[j]),
        decreases n - i,
    {
        if rs[i].is_align_gt_one() {
            return true;
        }
        i = i + 1;
    }
    false
}

/// What `Config::validate_reprs` answers for attributes `attrs`, given whether
/// `Unaligned` is derived and the two tables of combinations.
pub open spec fn spec_validate<R: KindRepr>(
    derive_unaligned: bool,
    allowed: Seq<Seq<R>>,
    disallowed: Seq<Seq<R>>,
    attrs: Seq<AttrMeta>,
) -> Result<Seq<R>, Seq<ReprError>> {
    match spec_reprs::<R>(attrs) {
        Err(e) => Err(e),
        Ok(rs) => {
            if derive_unaligned && exists|i: int| 0 <= i < rs.len() && align_above_one(#[trigger] rs[i]) {
                Err(seq![ReprError { kind: ReprErrorKind::AlignAboveOneForUnaligned, site: ErrorSite::Input }])
            } else {
                let c = canonical(rs);
                if c.len() == 0 {
                    Err(seq![ReprError { kind: ReprErrorKind::MissingNonAlignRepr, site: ErrorSite::CallSite }])
                } else if allowed.contains(c) {
                    Ok(c)
                } else if disallowed.contains(c) {
                    Err(seq![ReprError { kind: ReprErrorKind::DisallowedCombination, site: ErrorSite::Input }])
                } else {
                    Err(seq![ReprError { kind: ReprErrorKind::ConflictingHints, site: ErrorSite::Input }])
                }
            }
        },
    }
}

/// The requirements that a derive places on a type's representation.
pub struct Config<R: KindRepr> {
    /// A human-readable message describing what combinations of
    /// representations are allowed, reported for a disallowed combination.
    pub allowed_combinations_message: &'static str,
    /// Whether the check is for `derive(Unaligned)`; then `repr(align(N))`
    /// with `N > 1` is refused as well.
    pub derive_unaligned: bool,
    /// Combinations which are valid for the trait, each in canonical form.
    pub allowed_combinations: &'static [&'static [R]],
    /// Combinations which are not valid for the trait but are legal
    /// according to Rust. Any other combination is refused as conflicting.
    pub disallowed_but_legal_combinations: &'static [&'static [R]],
}

impl<R: KindRepr> Config<R> {
    pub open spec fn outcome(&self, attrs: Seq<AttrMeta>) -> Result<Seq<R>, Seq<ReprError>> {
        spec_validate(
            self.derive_unaligned,
            combos(self.allowed_combinations),
            combos(self.disallowed_but_legal_combinations),
            attrs,
        )
    }

    /// Validates that the representation attributes `attrs` of a type conform
    /// to this `Config`, and returns the representations other than `align`
    /// in canonical order.
    pub fn validate_reprs(&self, attrs: &[AttrMeta]) -> (res: Result<Vec<R>, Vec<ReprError>>)
        ensures
            result_view(res) == self.outcome(attrs@),
    {
        let parsed = match reprs::<R>(attrs) {
            Ok(v) => v,
            Err(e) => {
                return Err(e);
            },
        };
        if self.derive_unaligned && any_align_above_one(&parsed) {
            let errs = vec![ReprError { kind: ReprErrorKind::AlignAboveOneForUnaligned, site: ErrorSite::Input }];
            assert(errs@ =~= seq![ReprError { kind: ReprErrorKind::AlignAboveOneForUnaligned, site: ErrorSite::Input }]);
            return Err(errs);
        }
        let kept = canonical_order(&parsed);
        if kept.len() == 0 {
            let errs = vec![ReprError { kind: ReprErrorKind::MissingNonAlignRepr, site: ErrorSite::CallSite }];
            assert(errs@ =~= seq![ReprError { kind: ReprErrorKind::MissingNonAlignRepr, site: ErrorSite::CallSite }]);
            Err(errs)
        } else if has_combo(self.allowed_combinations, kept.as_slice()) {
            Ok(kept)
        } else if has_combo(self.disallowed_but_legal_combinations, kept.as_slice()) {
            let errs = vec![ReprError { kind: ReprErrorKind::DisallowedCombination, site: ErrorSite::Input }];
            assert(errs@ =~= seq![ReprError { kind: ReprErrorKind::DisallowedCombination, site: ErrorSite::Input }]);
            Err(errs)
        } else {
            let errs = vec![ReprError { kind: ReprErrorKind::ConflictingHints, site: ErrorSite::Input }];
            assert(errs@ =~= seq![ReprError { kind: ReprErrorKind::ConflictingHints, site: ErrorSite::Input }]);
            Err(errs)
        }
    }
}


proof fn lemma_rank_group_members<R: KindRepr>(rs: Seq<R>, k: nat)
    ensures
        forall|i: int|
            0 <= i < rank_group(rs, k).len() ==> (#[trigger] rank_group(rs, k)[i]).spec_align() is None
                && rank_group(rs, k)[i].spec_rank() == k,
    decreases rs.len(),
{
    if rs.len() > 0 {
        lemma_rank_group_members(rs.drop_last(), k);
    }
}

proof fn lemma_grouped_members<R: KindRepr>(rs: Seq<R>, k: nat)
    ensures
        forall|i: int|
            0 <= i < grouped(rs, k).len() ==> (#[trigger] grouped(rs, k)[i]).spec_align() is None
                && 1 <= grouped(rs, k)[i].spec_rank() <= k,
        forall|i: int, j: int|
            0 <= i <= j < grouped(rs, k).len() ==> (#[trigger] grouped(rs, k)[i]).spec_rank()
                <= (#[trigger] grouped(rs, k)[j]).spec_rank(),
    decreases k,
{
    if k > 0 {
        let k1 = (k - 1) as nat;
        lemma_grouped_members(rs, k1);
        lemma_rank_group_members(rs, k);
        let a = grouped(rs, k1);
        let b = rank_group(rs, k);
        assert(grouped(rs, k) == a + b);
        assert forall|i: int| 0 <= i < (a + b).len() implies (#[trigger] (a + b)[i]).spec_align() is None
            && 1 <= (a + b)[i].spec_rank() <= k by {
            if i < a.len() {
                assert((a + b)[i] == a[i]);
            } else {
                assert((a + b)[i] == b[i - a.len()]);
            }
        }
        assert forall|i: int, j: int| 0 <= i <= j < (a + b).len() implies (#[trigger] (a + b)[i]).spec_rank()
            <= (#[trigger] (a + b)[j]).spec_rank() by {
            if j < a.len() {
                assert((a + b)[i] == a[i]);
                assert((a + b)[j] == a[j]);
            } else if i < a.len() {
                assert((a + b)[i] == a[i]);
                assert((a + b)[j] == b[j - a.len()]);
            } else {
                assert((a + b)[i] == b[i - a.len()]);
                assert((a + b)[j] == b[j - a.len()]);
            }
        }
    }
}

/// The canonical form holds no `align` representation, and its
/// representations come in increasing rank.
pub proof fn lemma_canonical_sorted<R: KindRepr>(rs: Seq<R>)
    ensures
        forall|i: int| 0 <= i < canonical(rs).len() ==> (#[trigger] canonical(rs)[i]).spec_align() is None,
        forall|i: int, j: int|
            0 <= i <= j < canonical(rs).len() ==> (#[trigger] canonical(rs)[i]).spec_rank()
                <= (#[trigger] canonical(rs)[j]).spec_rank(),
{
    lemma_grouped_members(rs, R::spec_max_rank());
}

/// The variants of rank `k` are copies of the one variant `v` of that rank,
/// as many as `rs` holds.
proof fn lemma_rank_group_copies<R: KindRepr>(rs: Seq<R>, k: nat, v: R)
    requires
        v.spec_align() is None,
        v.spec_rank() == k,
    ensures
        rank_group(rs, k) == Seq::new(rs.to_multiset().count(v), |i: int| v),
    decreases rs.len(),
{
    broadcast use vstd::seq_lib::group_to_multiset_ensures, vstd::multiset::group_multiset_axioms;

    if rs.len() == 0 {
        assert(rs.to_multiset() =~= Multiset::empty());
        assert(rank_group(rs, k) =~= Seq::new(rs.to_multiset().count(v), |i: int| v));
    } else {
        let front = rs.drop_last();
        let x = rs.last();
        lemma_rank_group_copies(front, k, v);
        assert(rs == front.push(x));
        assert(rs.to_multiset() =~= front.to_multiset().insert(x));
        if x.spec_align() is None && x.spec_rank() == k {
            R::lemma_rank_injective(x, v);
            assert(rank_group(rs, k) =~= Seq::new(rs.to_multiset().count(v), |i: int| v));
        } else {
            assert(x != v);
            assert(rank_group(rs, k) =~= Seq::new(rs.to_multiset().count(v), |i: int| v));
        }
    }
}

proof fn lemma_rank_group_by_multiset<R: KindRepr>(rs1: Seq<R>, rs2: Seq<R>, k: nat)
    requires
        rs1.to_multiset() == rs2.to_multiset(),
    ensures
        rank_group(rs1, k) == rank_group(rs2, k),
{
    lemma_rank_group_members(rs1, k);
    lemma_rank_group_members(rs2, k);
    if rank_group(rs1, k).len() > 0 {
        let v = rank_group(rs1, k)[0];
        lemma_rank_group_copies(rs1, k, v);
        lemma_rank_group_copies(rs2, k, v);
    } else if rank_group(rs2, k).len() > 0 {
        let v = rank_group(rs2, k)[0];
        lemma_rank_group_copies(rs1, k, v);
        lemma_rank_group_copies(rs2, k, v);
    } else {
        assert(rank_group(rs1, k) =~= rank_group(rs2, k));
    }
}

proof fn lemma_grouped_by_multiset<R: KindRepr>(rs1: Seq<R>, rs2: Seq<R>, k: nat)
    requires
        rs1.to_multiset() == rs2.to_multiset(),
    ensures
        grouped(rs1, k) == grouped(rs2, k),
    decreases k,
{
    if k > 0 {
        lemma_grouped_by_multiset(rs1, rs2, (k - 1) as nat);
        lemma_rank_group_by_multiset(rs1, rs2, k);
    }
}

/// The canonical form depends only on which representations were given and
/// how often, not on the order of the attributes or hints.
pub proof fn lemma_canonical_order_independent<R: KindRepr>(rs1: Seq<R>, rs2: Seq<R>)
    requires
        rs1.to_multiset() == rs2.to_multiset(),
    ensures
        canonical(rs1) == canonical(rs2),
{
    lemma_grouped_by_multiset(rs1, rs2, R::spec_max_rank());
}


proof fn lemma_rank_group_count<R: KindRepr>(rs: Seq<R>, k: nat, v: R)
    ensures
        rank_group(rs, k).to_multiset().count(v) == (if v.spec_align() is None && v.spec_rank() == k {
            rs.to_multiset().count(v)
        } else {
            0
        }),
    decreases rs.len(),
{
    broadcast use vstd::seq_lib::group_to_multiset_ensures, vstd::multiset::group_multiset_axioms;

    if rs.len() == 0 {
        assert(rank_group(rs, k) =~= Seq::<R>::empty());
        assert(rs.to_multiset() =~= Multiset::empty());
        assert(rank_group(rs, k).to_multiset() =~= Multiset::empty());
    } else {
        let front = rs.drop_last();
        let x = rs.last();
        lemma_rank_group_count(front, k, v);
        assert(rs == front.push(x));
        assert(rs.to_multiset() =~= front.to_multiset().insert(x));
        if x.spec_align() is None && x.spec_rank() == k {
            assert(rank_group(rs, k) == rank_group(front, k).push(x));
        } else {
            assert(rank_group(rs, k) == rank_group(front, k));
        }
    }
}

proof fn lemma_grouped_count<R: KindRepr>(rs: Seq<R>, k: nat, v: R)
    ensures
        grouped(rs, k).to_multiset().count(v) == (if v.spec_align() is None && 1 <= v.spec_rank() <= k {
            rs.to_multiset().count(v)
        } else {
            0
        }),
    decreases k,
{
    broadcast use vstd::seq_lib::group_to_multiset_ensures, vstd::multiset::group_multiset_axioms;

    if k == 0 {
        assert(grouped(rs, k) =~= Seq::<R>::empty());
        assert(grouped(rs, k).to_multiset() =~= Multiset::empty());
    } else {
        let k1 = (k - 1) as nat;
        lemma_grouped_count(rs, k1, v);
        lemma_rank_group_count(rs, k, v);
        vstd::seq_lib::lemma_multiset_commutative(grouped(rs, k1), rank_group(rs, k));
    }
}

/// The canonical form holds each representation other than `align` exactly
/// as often as `rs` does: it is a reordering of them.
pub proof fn lemma_canonical_keeps_non_align<R: KindRepr>(rs: Seq<R>, v: R)
    ensures
        canonical(rs).to_multiset().count(v) == (if v.spec_align() is None {
            rs.to_multiset().count(v)
        } else {
            0
        }),
{
    R::lemma_rank_range(v);
    lemma_grouped_count(rs, R::spec_max_rank(), v);
}


/// The character of a decimal digit.
pub open spec fn digit_char(d: nat) -> char {
    if d == 0 {
        '0'
    } else if d == 1 {
        '1'
    } else if d == 2 {
        '2'
    } else if d == 3 {
        '3'
    } else if d == 4 {
        '4'
    } else if d == 5 {
        '5'
    } else if d == 6 {
        '6'
    } else if d == 7 {
        '7'
    } else if d == 8 {
        '8'
    } else {
        '9'
    }
}

/// The decimal notation of `n`, without leading zeros.
pub open spec fn decimal(n: nat) -> Seq<char>
    decreases n,
{
    if n < 10 {
        seq![digit_char(n)]
    } else {
        decimal(n / 10).push(digit_char(n % 10))
    }
}

fn digit_str(d: u64) -> (s: &'static str)
    requires
        d < 10,
    ensures
        s@ == seq![digit_char(d as nat)],
{
    if d == 0 {
        proof {
            reveal_strlit("0");
        }
        assert("0"@ =~= seq!['0']);
        "0"
    } else if d == 1 {
        proof {
            reveal_strlit("1");
        }
        assert("1"@ =~= seq!['1']);
        "1"
    } else if d == 2 {
        proof {
            reveal_strlit("2");
        }
        assert("2"@ =~= seq!['2']);
        "2"
    } else if d == 3 {
        proof {
            reveal_strlit("3");
        }
        assert("3"@ =~= seq!['3']);
        "3"
    } else if d == 4 {
        proof {
            reveal_strlit("4");
        }
        assert("4"@ =~= seq!['4']);
        "4"
    } else if d == 5 {
        proof {
            reveal_strlit("5");
        }
        assert("5"@ =~= seq!['5']);
        "5"
    } else if d == 6 {
        proof {
            reveal_strlit("6");
        }
        assert("6"@ =~= seq!['6']);
        "6"
    } else if d == 7 {
        proof {
            reveal_strlit("7");
        }
        assert("7"@ =~= seq!['7']);
        "7"
    } else if d == 8 {
        proof {
            reveal_strlit("8");
        }
        assert("8"@ =~= seq!['8']);
        "8"
    } else {
        proof {
            reveal_strlit("9");
        }
        assert("9"@ =~= seq!['9']);
        "9"
    }
}

/// Appends the decimal notation of `n` to `s`.
fn push_decimal(s: &mut String, n: u64)
    ensures
        final(s)@ == old(s)@ + decimal(n as nat),
    decreases n,
{
    if n >= 10 {
        push_decimal(s, n / 10);
    }
    s.append(digit_str(n % 10));
    proof {
        if n >= 10 {
            assert(old(s)@ + decimal((n / 10) as nat) + seq![digit_char((n % 10) as nat)] =~= old(s)@
                + decimal(n as nat));
        } else {
            assert(old(s)@ + seq![digit_char(n as nat)] =~= old(s)@ + decimal(n as nat));
        }
    }
}

/// The word that names a representation other than `align`.
pub open spec fn repr_name(r: Repr) -> Seq<char> {
    match r {
        Repr::U8 => "u8"@,
        Repr::U16 => "u16"@,
        Repr::U32 => "u32"@,
        Repr::U64 => "u64"@,
        Repr::Usize => "usize"@,
        Repr::I8 => "i8"@,
        Repr::I16 => "i16"@,
        Repr::I32 => "i32"@,
        Repr::I64 => "i64"@,
        Repr::Isize => "isize"@,
        Repr::C => "C"@,
        Repr::Transparent => "transparent"@,
        Repr::Packed => "packed"@,
        Repr::Align(_) => Seq::empty(),
    }
}

/// How a representation is written as an attribute: `repr(u8)`,
/// `repr(align(8))`.
pub open spec fn repr_text(r: Repr) -> Seq<char> {
    match r {
        Repr::Align(n) => "repr(align("@ + decimal(n as nat) + "))"@,
        _ => "repr("@ + repr_name(r) + ")"@,
    }
}

impl Repr {
    fn name(&self) -> (s: &'static str)
        requires
            !(*self is Align),
        ensures
            s@ == repr_name(*self),
    {
        match self {
            Repr::U8 => "u8",
            Repr::U16 => "u16",
            Repr::U32 => "u32",
            Repr::U64 => "u64",
            Repr::Usize => "usize",
            Repr::I8 => "i8",
            Repr::I16 => "i16",
            Repr::I32 => "i32",
            Repr::I64 => "i64",
            Repr::Isize => "isize",
            Repr::C => "C",
            Repr::Transparent => "transparent",
            Repr::Packed => "packed",
            Repr::Align(_) => "",
        }
    }

    /// The representation written as an attribute, as it is shown to users.
    pub fn to_string(&self) -> (s: String)
        ensures
            s@ == repr_text(*self),
    {
        match self {
            Repr::Align(n) => {
                let mut s = String::from_str("repr(align(");
                push_decimal(&mut s, *n);
                s.append("))");
                s
            },
            _ => {
                let mut s = String::from_str("repr(");
                s.append(self.name());
                s.append(")");
                s
            },
        }
    }
}

/// Reading back the word that names a representation gives that
/// representation.
pub proof fn lemma_word_round_trip(r: Repr)
    requires
        !(r is Align),
    ensures
        spec_word_repr(repr_name(r)) == Some(r),
{
    reveal_strlit("u8");
    reveal_strlit("u16");
    reveal_strlit("u32");
    reveal_strlit("u64");
    reveal_strlit("usize");
    reveal_strlit("i8");
    reveal_strlit("i16");
    reveal_strlit("i32");
    reveal_strlit("i64");
    reveal_strlit("isize");
    reveal_strlit("C");
    reveal_strlit("transparent");
    reveal_strlit("packed");
    broadcast use vstd::string::group_string_axioms;

    // The first two characters tell the words of equal length apart.
    assert("u8"@[0] == 'u' && "u8"@[1] == '8');
    assert("u16"@[0] == 'u' && "u16"@[1] == '1');
    assert("u32"@[0] == 'u' && "u32"@[1] == '3');
    assert("u64"@[0] == 'u' && "u64"@[1] == '6');
    assert("usize"@[0] == 'u' && "usize"@[1] == 's');
    assert("i8"@[0] == 'i' && "i8"@[1] == '8');
    assert("i16"@[0] == 'i' && "i16"@[1] == '1');
    assert("i32"@[0] == 'i' && "i32"@[1] == '3');
    assert("i64"@[0] == 'i' && "i64"@[1] == '6');
    assert("isize"@[0] == 'i' && "isize"@[1] == 's');
    assert("u8"@.len() == 2 && "i8"@.len() == 2 && "C"@.len() == 1 && "packed"@.len() == 6);
    assert("u16"@.len() == 3 && "u32"@.len() == 3 && "u64"@.len() == 3);
    assert("i16"@.len() == 3 && "i32"@.len() == 3 && "i64"@.len() == 3);
    assert("usize"@.len() == 5 && "isize"@.len() == 5 && "transparent"@.len() == 11);
}


impl StructRepr {
    /// The general representation that this one stands for.
    pub open spec fn spec_to_repr(self) -> Repr {
        match self {
            StructRepr::C => Repr::C,
            StructRepr::Transparent => Repr::Transparent,
            StructRepr::Packed => Repr::Packed,
            StructRepr::Align(n) => Repr::Align(n),
        }
    }

    pub fn to_repr(&self) -> (r: Repr)
        ensures
            r == self.spec_to_repr(),
    {
        match self {
            StructRepr::C => Repr::C,
            StructRepr::Transparent => Repr::Transparent,
            StructRepr::Packed => Repr::Packed,
            StructRepr::Align(n) => Repr::Align(*n),
        }
    }

    /// The representation written as an attribute, as it is shown to users.
    pub fn to_string(&self) -> (s: String)
        ensures
            s@ == repr_text(self.spec_to_repr()),
    {
        self.to_repr().to_string()
    }
}

impl EnumRepr {
    /// The general representation that this one stands for.
    pub open spec fn spec_to_repr(self) -> Repr {
        match self {
            EnumRepr::C => Repr::C,
            EnumRepr::U8 => Repr::U8,
            EnumRepr::U16 => Repr::U16,
            EnumRepr::U32 => Repr::U32,
            EnumRepr::U64 => Repr::U64,
            EnumRepr::Usize => Repr::Usize,
            EnumRepr::I8 => Repr::I8,
            EnumRepr::I16 => Repr::I16,
            EnumRepr::I32 => Repr::I32,
            EnumRepr::I64 => Repr::I64,
            EnumRepr::Isize => Repr::Isize,
            EnumRepr::Align(n) => Repr::Align(n),
        }
    }

    pub fn to_repr(&self) -> (r: Repr)
        ensures
            r == self.spec_to_repr(),
    {
        match self {
            EnumRepr::C => Repr::C,
            EnumRepr::U8 => Repr::U8,
            EnumRepr::U16 => Repr::U16,
            EnumRepr::U32 => Repr::U32,
            EnumRepr::U64 => Repr::U64,
            EnumRepr::Usize => Repr::Usize,
            EnumRepr::I8 => Repr::I8,
            EnumRepr::I16 => Repr::I16,
            EnumRepr::I32 => Repr::I32,
            EnumRepr::I64 => Repr::I64,
            EnumRepr::Isize => Repr::Isize,
            EnumRepr::Align(n) => Repr::Align(*n),
        }
    }

    /// The representation written as an attribute, as it is shown to users.
    pub fn to_string(&self) -> (s: String)
        ensures
            s@ == repr_text(self.spec_to_repr()),
    {
        self.to_repr().to_string()
    }
}

/// A struct representation is what parsing its general representation gives.
pub proof fn lemma_struct_repr_round_trip(x: StructRepr)
    ensures
        StructRepr::spec_of_repr(x.spec_to_repr()) == Some(x),
{
}

/// An enum representation is what parsing its general representation gives.
pub proof fn lemma_enum_repr_round_trip(x: EnumRepr)
    ensures
        EnumRepr::spec_of_repr(x.spec_to_repr()) == Some(x),
{
}


/// The message reported for an error of kind `kind`; `label` names the kind
/// of type ("a struct") and `allowed` describes the allowed combinations.
pub open spec fn message_text(kind: ReprErrorKind, label: Seq<char>, allowed: Seq<char>) -> Seq<char> {
    match kind {
        ReprErrorKind::UnrecognizedHint => "unrecognized representation hint"@,
        ReprErrorKind::UnsupportedHint => "unsupported representation for deriving FromBytes, AsBytes, or Unaligned on "@
            + label,
        ReprErrorKind::AlignAboveOneForUnaligned => "cannot derive Unaligned with repr(align(N > 1))"@,
        ReprErrorKind::MissingNonAlignRepr => "must have a non-align #[repr(...)] attribute in order to guarantee this type's memory layout"@,
        ReprErrorKind::DisallowedCombination => allowed,
        ReprErrorKind::ConflictingHints => "conflicting representation hints"@,
    }
}

impl ReprErrorKind {
    /// The message shown to the user for this error. `kind_label` names the
    /// kind of type (`KindRepr::kind_label`), and `allowed_message` is the
    /// configuration's description of the allowed combinations.
    pub fn message(&self, kind_label: &str, allowed_message: &str) -> (s: String)
        ensures
            s@ == message_text(*self, kind_label@, allowed_message@),
    {
        match self {
            ReprErrorKind::UnrecognizedHint => String::from_str("unrecognized representation hint"),
            ReprErrorKind::UnsupportedHint => {
                let mut s = String::from_str(
                    "unsupported representation for deriving FromBytes, AsBytes, or Unaligned on ",
                );
                s.append(kind_label);
                s
            },
            ReprErrorKind::AlignAboveOneForUnaligned => String::from_str(
                "cannot derive Unaligned with repr(align(N > 1))",
            ),
            ReprErrorKind::MissingNonAlignRepr => String::from_str(
                "must have a non-align #[repr(...)] attribute in order to guarantee this type's memory layout",
            ),
            ReprErrorKind::DisallowedCombination => String::from_str(allowed_message),
            ReprErrorKind::ConflictingHints => String::from_str("conflicting representation hints"),
        }
    }
}

/// The hints of one attribute that are parsed as representations: those of
/// a `#[repr(...)]` attribute, none of any other.
pub open spec fn attr_hints(attr: AttrMeta) -> Seq<NestedMeta> {
    match attr {
        AttrMeta::List { ident, nested } => {
            if ident@ == "repr"@ {
                nested@
            } else {
                Seq::empty()
            }
        },
        AttrMeta::Other => Seq::empty(),
    }
}

/// All representation hints of `attrs`, in attribute order.
pub open spec fn repr_hints(attrs: Seq<AttrMeta>) -> Seq<NestedMeta>
    decreases attrs.len(),
{
    if attrs.len() == 0 {
        Seq::empty()
    } else {
        repr_hints(attrs.drop_last()) + attr_hints(attrs.last())
    }
}

/// The value that a hint parses to, for a hint that parses.
pub open spec fn hint_value<R: KindRepr>(h: NestedMeta) -> R {
    spec_parse_hint::<R>(h)->Ok_0
}

proof fn lemma_outcomes_follow_hints<R: KindRepr>(attrs: Seq<AttrMeta>)
    ensures
        hint_outcomes::<R>(attrs).len() == repr_hints(attrs).len(),
        forall|k: int|
            0 <= k < repr_hints(attrs).len() ==> ((#[trigger] hint_outcomes::<R>(attrs)[k]) is Ok
                <==> spec_parse_hint::<R>(repr_hints(attrs)[k]) is Ok),
        forall|k: int|
            0 <= k < repr_hints(attrs).len() && (#[trigger] hint_outcomes::<R>(attrs)[k]) is Ok
                ==> hint_outcomes::<R>(attrs)[k]->Ok_0 == hint_value::<R>(repr_hints(attrs)[k]),
    decreases attrs.len(),
{
    if attrs.len() > 0 {
        let front = attrs.drop_last();
        lemma_outcomes_follow_hints::<R>(front);
        let o1 = hint_outcomes::<R>(front);
        let o2 = attr_outcomes::<R>(attrs.len() - 1, attrs.last());
        let h1 = repr_hints(front);
        let h2 = attr_hints(attrs.last());
        assert(o2.len() == h2.len());
        assert forall|k: int| 0 <= k < (h1 + h2).len() implies {
            &&& ((o1 + o2)[k] is Ok <==> spec_parse_hint::<R>((h1 + h2)[k]) is Ok)
            &&& ((o1 + o2)[k] is Ok ==> (o1 + o2)[k]->Ok_0 == hint_value::<R>((h1 + h2)[k]))
        } by {
            if k < h1.len() {
                assert((o1 + o2)[k] == o1[k]);
                assert((h1 + h2)[k] == h1[k]);
            } else {
                assert((o1 + o2)[k] == o2[k - h1.len()]);
                assert((h1 + h2)[k] == h2[k - h1.len()]);
            }
        }
    }
}

proof fn lemma_no_errs<T, E>(o: Seq<Result<T, E>>)
    ensures
        (errs(o).len() == 0) <==> (forall|k: int| 0 <= k < o.len() ==> (#[trigger] o[k]) is Ok),
        errs(o).len() == 0 ==> oks(o) == o.map_values(|r: Result<T, E>| r->Ok_0),
    decreases o.len(),
{
    if o.len() > 0 {
        let front = o.drop_last();
        lemma_no_errs(front);
        assert forall|k: int| 0 <= k < front.len() implies front[k] == o[k] by {}
        if errs(o).len() == 0 {
            assert(oks(o) =~= o.map_values(|r: Result<T, E>| r->Ok_0));
        }
        if forall|k: int| 0 <= k < o.len() ==> (#[trigger] o[k]) is Ok {
            assert(o[o.len() - 1] is Ok);
        }
    }
}

proof fn lemma_shared_member<A>(s1: Seq<A>, s2: Seq<A>, x: A)
    requires
        s1.to_multiset() == s2.to_multiset(),
        s1.contains(x),
    ensures
        s2.contains(x),
{
    broadcast use vstd::seq_lib::group_to_multiset_ensures;

    assert(s1.to_multiset().count(x) > 0);
    assert(s2.to_multiset().count(x) > 0);
}

/// Mapping two sequences that hold the same members as often gives two
/// sequences that hold the same members as often.
proof fn lemma_map_keeps_multiset<A, B>(s1: Seq<A>, s2: Seq<A>, f: spec_fn(A) -> B)
    requires
        s1.to_multiset() == s2.to_multiset(),
    ensures
        s1.map_values(f).to_multiset() == s2.map_values(f).to_multiset(),
    decreases s1.len(),
{
    broadcast use vstd::seq_lib::group_to_multiset_ensures, vstd::multiset::group_multiset_axioms;

    if s1.len() == 0 {
        assert(s1.to_multiset().len() == s1.len());
        assert(s2.to_multiset().len() == s2.len());
        assert(s2.len() == 0);
        assert(s1.map_values(f) =~= s2.map_values(f));
    } else {
        let x = s1.last();
        let front = s1.drop_last();
        assert(s1 == front.push(x));
        assert(s1.to_multiset().count(x) > 0);
        assert(s2.contains(x));
        let j = choose|j: int| 0 <= j < s2.len() && s2[j] == x;
        let rest = s2.remove(j);
        assert(rest.to_multiset() =~= s2.to_multiset().remove(x));
        assert(front.to_multiset() =~= s1.to_multiset().remove(x));
        lemma_map_keeps_multiset(front, rest, f);
        assert(s1.map_values(f) =~= front.map_values(f).push(f(x)));
        assert(s2.map_values(f).remove(j) =~= rest.map_values(f));
        assert(s2.map_values(f)[j] == f(x));
        assert(s2.map_values(f).to_multiset() =~= rest.map_values(f).to_multiset().insert(f(x)));
    }
}

/// The parsed representations, when every hint parses.
proof fn lemma_parsed_are_hint_values<R: KindRepr>(attrs: Seq<AttrMeta>)
    ensures
        spec_reprs::<R>(attrs) is Ok <==> (forall|k: int|
            0 <= k < repr_hints(attrs).len() ==> spec_parse_hint::<R>(#[trigger] repr_hints(attrs)[k]) is Ok),
        spec_reprs::<R>(attrs) is Ok ==> spec_reprs::<R>(attrs)->Ok_0 == repr_hints(attrs).map_values(
            |h: NestedMeta| hint_value::<R>(h),
        ),
{
    let o = hint_outcomes::<R>(attrs);
    let h = repr_hints(attrs);
    lemma_outcomes_follow_hints::<R>(attrs);
    lemma_no_errs(o);
    if spec_reprs::<R>(attrs) is Ok {
        assert forall|k: int| 0 <= k < h.len() implies spec_parse_hint::<R>(#[trigger] h[k]) is Ok by {
            assert(o[k] is Ok);
        }
        assert(oks(o) =~= h.map_values(|x: NestedMeta| hint_value::<R>(x))) by {
            assert forall|k: int| 0 <= k < h.len() implies oks(o)[k] == hint_value::<R>(h[k]) by {
                assert(o[k] is Ok);
            }
        }
    } else {
        assert(errs(o).len() > 0);
        let k = choose|k: int| 0 <= k < o.len() && !(#[trigger] o[k] is Ok);
        assert(!(spec_parse_hint::<R>(h[k]) is Ok));
    }
}

/// Whether validation succeeds, and what it gives then, depends only on
/// which representation hints the attributes hold and how often: not on
/// their order, nor on how they are spread over `#[repr(...)]` attributes.
pub proof fn lemma_validate_order_independent<R: KindRepr>(
    config: Config<R>,
    attrs1: Seq<AttrMeta>,
    attrs2: Seq<AttrMeta>,
)
    requires
        repr_hints(attrs1).to_multiset() == repr_hints(attrs2).to_multiset(),
    ensures
        config.outcome(attrs1) is Ok <==> config.outcome(attrs2) is Ok,
        config.outcome(attrs1) is Ok ==> config.outcome(attrs1) == config.outcome(attrs2),
{
    broadcast use vstd::seq_lib::group_to_multiset_ensures;

    let h1 = repr_hints(attrs1);
    let h2 = repr_hints(attrs2);
    lemma_parsed_are_hint_values::<R>(attrs1);
    lemma_parsed_are_hint_values::<R>(attrs2);
    if !(spec_reprs::<R>(attrs1) is Ok) {
        let k = choose|k: int| 0 <= k < h1.len() && !(spec_parse_hint::<R>(#[trigger] h1[k]) is Ok);
        assert(h1.contains(h1[k]));
        lemma_shared_member(h1, h2, h1[k]);
        let j = choose|j: int| 0 <= j < h2.len() && h2[j] == h1[k];
        assert(!(spec_parse_hint::<R>(h2[j]) is Ok));
    } else if !(spec_reprs::<R>(attrs2) is Ok) {
        let k = choose|k: int| 0 <= k < h2.len() && !(spec_parse_hint::<R>(#[trigger] h2[k]) is Ok);
        assert(h2.contains(h2[k]));
        lemma_shared_member(h2, h1, h2[k]);
        let j = choose|j: int| 0 <= j < h1.len() && h1[j] == h2[k];
        assert(!(spec_parse_hint::<R>(h1[j]) is Ok));
    } else {
        let f = |h: NestedMeta| hint_value::<R>(h);
        let rs1 = h1.map_values(f);
        let rs2 = h2.map_values(f);
        lemma_map_keeps_multiset(h1, h2, f);
        lemma_canonical_order_independent(rs1, rs2);
        if exists|i: int| 0 <= i < rs1.len() && align_above_one(#[trigger] rs1[i]) {
            let i = choose|i: int| 0 <= i < rs1.len() && align_above_one(#[trigger] rs1[i]);
            assert(rs1.contains(rs1[i]));
            lemma_shared_member(rs1, rs2, rs1[i]);
            let j = choose|j: int| 0 <= j < rs2.len() && rs2[j] == rs1[i];
            assert(align_above_one(rs2[j]));
        }
        if exists|i: int| 0 <= i < rs2.len() && align_above_one(#[trigger] rs2[i]) {
            let i = choose|i: int| 0 <= i < rs2.len() && align_above_one(#[trigger] rs2[i]);
            assert(rs2.contains(rs2[i]));
            lemma_shared_member(rs2, rs1, rs2[i]);
            let j = choose|j: int| 0 <= j < rs1.len() && rs1[j] == rs2[i];
            assert(align_above_one(rs1[j]));
        }
    }
}


/// The number that a decimal digit character stands for.
pub open spec fn digit_value(c: char) -> int {
    (c as int) - ('0' as int)
}

/// The number that a text of decimal digits stands for, most significant
/// digit first.
pub open spec fn decimal_value(s: Seq<char>) -> int
    decreases s.len(),
{
    if s.len() == 0 {
        0
    } else {
        decimal_value(s.drop_last()) * 10 + digit_value(s.last())
    }
}

/// The decimal text of `n` reads back as `n`, holds only the digits `0`
/// to `9`, and starts with `0` only when `n` is `0`.
pub proof fn lemma_decimal_reads_back(n: nat)
    ensures
        decimal_value(decimal(n)) == n,
        decimal(n).len() > 0,
        forall|i: int| 0 <= i < decimal(n).len() ==> 0 <= digit_value(#[trigger] decimal(n)[i]) <= 9,
        n > 0 ==> decimal(n)[0] != '0',
    decreases n,
{
    lemma_digit_value((n % 10) as nat);
    if n >= 10 {
        lemma_decimal_reads_back(n / 10);
        let front = decimal(n / 10);
        assert(decimal(n) == front.push(digit_char(n % 10)));
        assert(decimal(n).drop_last() == front);
        assert((n / 10) * 10 + n % 10 == n) by {
            vstd::arithmetic::div_mod::lemma_fundamental_div_mod(n as int, 10);
        }
        assert(decimal(n).last() == digit_char((n % 10) as nat));
        assert(decimal_value(decimal(n)) == decimal_value(front) * 10 + digit_value(digit_char((n % 10) as nat)));
        assert(decimal_value(front) == n / 10);
        assert(decimal(n)[0] == front[0]);
        assert forall|i: int| 0 <= i < decimal(n).len() implies 0 <= digit_value(#[trigger] decimal(n)[i]) <= 9 by {
            if i < front.len() {
                assert(decimal(n)[i] == front[i]);
            }
        }
    } else {
        lemma_digit_value(n);
        assert(decimal(n).drop_last() =~= Seq::<char>::empty());
        assert(decimal(n).last() == digit_char(n));
        assert(decimal_value(decimal(n)) == decimal_value(Seq::<char>::empty()) * 10 + digit_value(digit_char(n)));
    }
}

proof fn lemma_digit_value(d: nat)
    requires
        d < 10,
    ensures
        digit_value(digit_char(d)) == d,
        d > 0 ==> digit_char(d) != '0',
{
}

/// A text with its first letter made upper case, as a variant name is
/// written: `u32` becomes `U32`, `packed` becomes `Packed`.
pub open spec fn capitalized(w: Seq<char>) -> Seq<char> {
    if w.len() > 0 && 'a' <= w[0] && w[0] <= 'z' {
        w.update(0, ((w[0] as int) - 32) as char)
    } else {
        w
    }
}

/// A word that names a representation is that representation's name.
proof fn lemma_word_is_name(w: Seq<char>)
    requires
        spec_word_repr(w) is Some,
    ensures
        w == repr_name(spec_word_repr(w)->Some_0),
        !(spec_word_repr(w)->Some_0 is Align),
{
}

/// Every enum representation other than `align` is shown under the name of
/// the representation it stands for, first letter upper-cased: the variant
/// for `u32` is shown as `U32`.
pub proof fn lemma_enum_variant_names(x: EnumRepr)
    requires
        !(x is Align),
    ensures
        x.spec_debug_text() == capitalized(repr_name(x.spec_to_repr())),
{
    match x {
        EnumRepr::C => {
            reveal_strlit("C");
            assert(capitalized("C"@) =~= x.spec_debug_text());
        },
        EnumRepr::U8 => {
            reveal_strlit("u8");
            assert(capitalized("u8"@) =~= x.spec_debug_text());
        },
        EnumRepr::U16 => {
            reveal_strlit("u16");
            assert(capitalized("u16"@) =~= x.spec_debug_text());
        },
        EnumRepr::U32 => {
            reveal_strlit("u32");
            assert(capitalized("u32"@) =~= x.spec_debug_text());
        },
        EnumRepr::U64 => {
            reveal_strlit("u64");
            assert(capitalized("u64"@) =~= x.spec_debug_text());
        },
        EnumRepr::Usize => {
            reveal_strlit("usize");
            assert(capitalized("usize"@) =~= x.spec_debug_text());
        },
        EnumRepr::I8 => {
            reveal_strlit("i8");
            assert(capitalized("i8"@) =~= x.spec_debug_text());
        },
        EnumRepr::I16 => {
            reveal_strlit("i16");
            assert(capitalized("i16"@) =~= x.spec_debug_text());
        },
        EnumRepr::I32 => {
            reveal_strlit("i32");
            assert(capitalized("i32"@) =~= x.spec_debug_text());
        },
        EnumRepr::I64 => {
            reveal_strlit("i64");
            assert(capitalized("i64"@) =~= x.spec_debug_text());
        },
        EnumRepr::Isize => {
            reveal_strlit("isize");
            assert(capitalized("isize"@) =~= x.spec_debug_text());
        },
        EnumRepr::Align(_) => {},
    }
}

/// Every struct representation other than `align` is shown under the name
/// of the representation it stands for, first letter upper-cased.
pub proof fn lemma_struct_variant_names(x: StructRepr)
    requires
        !(x is Align),
    ensures
        x.spec_debug_text() == capitalized(repr_name(x.spec_to_repr())),
{
    match x {
        StructRepr::C => {
            reveal_strlit("C");
            assert(capitalized("C"@) =~= x.spec_debug_text());
        },
        StructRepr::Transparent => {
            reveal_strlit("transparent");
            assert(capitalized("transparent"@) =~= x.spec_debug_text());
        },
        StructRepr::Packed => {
            reveal_strlit("packed");
            assert(capitalized("packed"@) =~= x.spec_debug_text());
        },
        StructRepr::Align(_) => {},
    }
}

/// A word hint parses, for an enum, to the variant of the same name:
/// `u32` gives the variant shown as `U32`.
pub proof fn lemma_enum_word_names_variant(meta: NestedMeta, x: EnumRepr)
    requires
        meta is Word,
        spec_parse_hint::<EnumRepr>(meta) == Ok::<EnumRepr, ReprErrorKind>(x),
    ensures
        x.spec_debug_text() == capitalized(meta->Word_0@),
{
    let w = meta->Word_0@;
    lemma_word_is_name(w);
    let r = spec_word_repr(w)->Some_0;
    assert(x.spec_to_repr() == r);
    lemma_enum_variant_names(x);
}

/// A word hint parses, for a struct, to the variant of the same name:
/// `packed` gives the variant shown as `Packed`.
pub proof fn lemma_struct_word_names_variant(meta: NestedMeta, x: StructRepr)
    requires
        meta is Word,
        spec_parse_hint::<StructRepr>(meta) == Ok::<StructRepr, ReprErrorKind>(x),
    ensures
        x.spec_debug_text() == capitalized(meta->Word_0@),
{
    let w = meta->Word_0@;
    lemma_word_is_name(w);
    let r = spec_word_repr(w)->Some_0;
    assert(x.spec_to_repr() == r);
    lemma_struct_variant_names(x);
}


/// The parsed values are those of the outcomes that are `Ok`, in order.
pub proof fn lemma_oks_are_successes<T, E>(s: Seq<Result<T, E>>)
    ensures
        oks(s) == s.filter(|r: Result<T, E>| r is Ok).map_values(|r: Result<T, E>| r->Ok_0),
    decreases s.len(),
{
    reveal(Seq::filter);
    if s.len() > 0 {
        lemma_oks_are_successes(s.drop_last());
        let f = s.drop_last().filter(|r: Result<T, E>| r is Ok);
        assert(f.push(s.last()).map_values(|r: Result<T, E>| r->Ok_0) =~= f.map_values(
            |r: Result<T, E>| r->Ok_0,
        ).push(s.last()->Ok_0));
    }
}

/// The errors are those of the outcomes that are `Err`, in order.
pub proof fn lemma_errs_are_failures<T, E>(s: Seq<Result<T, E>>)
    ensures
        errs(s) == s.filter(|r: Result<T, E>| r is Err).map_values(|r: Result<T, E>| r->Err_0),
    decreases s.len(),
{
    reveal(Seq::filter);
    if s.len() > 0 {
        lemma_errs_are_failures(s.drop_last());
        let f = s.drop_last().filter(|r: Result<T, E>| r is Err);
        assert(f.push(s.last()).map_values(|r: Result<T, E>| r->Err_0) =~= f.map_values(
            |r: Result<T, E>| r->Err_0,
        ).push(s.last()->Err_0));
    }
}

} // verus!
