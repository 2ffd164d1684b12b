//! The per-port decisions behind a generated Verilator model struct: the
//! Verilator data type of each port, the words of a wide port, the port's
//! documentation and the name of its accessor, and the ports that cannot be
//! bound.

use vstd::prelude::*;
use crate::decimal::{decimal_text, usize_to_decimal};
use crate::identifier::{
    all_ascii, ascii_format_ident_ok, ascii_ident, format_ident_accepts, format_ident_ok,
    is_ascii_letter, is_ascii_word_char,
};

verus! {

/// The direction of a Verilog port.
#[derive(Clone, Copy, Debug, PartialEq, Eq, Structural)]
pub enum PortDirection {
    Input,
    Output,
    Inout,
}

/// A port of the top module: its name, direction, least significant bit and
/// width in bits.
#[derive(Clone, Debug, PartialEq, Eq)]
pub struct PortDeclaration {
    pub name: String,
    pub direction: PortDirection,
    pub lsb: usize,
    pub width: usize,
}

/// The Verilator interface type that carries a port's value.
#[derive(Clone, Copy, Debug, PartialEq, Eq, Structural)]
pub enum InterfaceType {
    /// up to 8 bits
    CData,
    /// up to 16 bits
    SData,
    /// up to 32 bits
    IData,
    /// up to 64 bits
    QData,
    /// a wide input, passed as a pointer to 32-bit words
    WDataInP,
    /// a wide output, passed as a pointer to 32-bit words
    WDataOutP,
}

/// Everything the generated struct needs to know of one port.
#[derive(Clone, Debug, PartialEq, Eq)]
pub struct PortPlan {
    pub name: String,
    /// `Input` or `Output`.
    pub direction: PortDirection,
    pub lsb: usize,
    pub width: usize,
    /// The most significant bit, `lsb + width - 1`.
    pub msb: usize,
    pub interface_type: InterfaceType,
    /// For a port wider than 64 bits, the number of 32-bit words it spans.
    pub wide_words: Option<usize>,
    /// The doc comment of the port's field.
    pub documentation: String,
    /// The name of the field that holds the port's setter (`pin_<name>`, for
    /// an input) or getter (`read_<name>`, for an output).
    pub accessor: String,
}

/// Why a port cannot be bound.
#[derive(Clone, Copy, Debug, PartialEq, Eq, Structural)]
pub enum PortErrorKind {
    /// `lsb + width - 1` does not fit in a `usize` (or `lsb + width` is 0).
    MsbOverflow,
    /// The name holds a backslash or a space, as escaped Verilog names do.
    EscapedName,
    /// Inout ports are not supported; `wide` tells whether it is wider than 64
    /// bits.
    UnsupportedInout { wide: bool },
    /// The name of the port's field, or of its accessor field, is not an
    /// identifier that `format_ident!` can make.
    NotAnIdentifier,
}

/// The first port, in declaration order, that cannot be bound, and why.
#[derive(Clone, Copy, Debug, PartialEq, Eq, Structural)]
pub struct BuildError {
    pub port: usize,
    pub kind: PortErrorKind,
}

/// The number of 32-bit words that hold `width` bits.
pub open spec fn word_count(width: int) -> int {
    (width + 31) / 32
}

/// The interface type for a port, if the port can be bound.
pub open spec fn interface_type(width: int, direction: PortDirection) -> Option<InterfaceType> {
    if width <= 8 {
        Some(InterfaceType::CData)
    } else if width <= 16 {
        Some(InterfaceType::SData)
    } else if width <= 32 {
        Some(InterfaceType::IData)
    } else if width <= 64 {
        Some(InterfaceType::QData)
    } else {
        match direction {
            PortDirection::Input => Some(InterfaceType::WDataInP),
            PortDirection::Output => Some(InterfaceType::WDataOutP),
            PortDirection::Inout => None,
        }
    }
}

/// The keyword that declares a port of this direction.
pub open spec fn direction_keyword(d: PortDirection) -> Seq<char> {
    match d {
        PortDirection::Input => "input"@,
        PortDirection::Output => "output"@,
        PortDirection::Inout => "inout"@,
    }
}

/// `name` holds a backslash or a space.
pub open spec fn is_escaped_name(name: Seq<char>) -> bool {
    exists|i: int| 0 <= i < name.len() && (name[i] == '\\' || name[i] == ' ')
}

/// Why port `p` cannot be bound, if it cannot; the checks are made in this
/// order.
pub open spec fn port_error(p: PortDeclaration) -> Option<PortErrorKind> {
    if p.lsb + p.width == 0 || p.lsb + p.width > usize::MAX {
        Some(PortErrorKind::MsbOverflow)
    } else if is_escaped_name(p.name@) {
        Some(PortErrorKind::EscapedName)
    } else if p.direction == PortDirection::Inout && p.width > 64 {
        Some(PortErrorKind::UnsupportedInout { wide: true })
    } else if !format_ident_ok(p.name@) {
        Some(PortErrorKind::NotAnIdentifier)
    } else if p.direction == PortDirection::Inout {
        Some(PortErrorKind::UnsupportedInout { wide: false })
    } else if !format_ident_ok(accessor_name(p)) {
        Some(PortErrorKind::NotAnIdentifier)
    } else {
        None
    }
}

/// The doc comment of a port's field: "Corresponds to Verilog
/// `<direction> <name>[<msb>:<lsb>]`."
pub open spec fn port_documentation(p: PortDeclaration) -> Seq<char> {
    "Corresponds to Verilog `"@ + direction_keyword(p.direction) + " "@ + p.name@ + "["@
        + decimal_text((p.lsb + p.width - 1) as nat) + ":"@ + decimal_text(p.lsb as nat) + "]`."@
}

/// The name of a port's accessor field.
pub open spec fn accessor_name(p: PortDeclaration) -> Seq<char> {
    match p.direction {
        PortDirection::Output => "read_"@ + p.name@,
        _ => "pin_"@ + p.name@,
    }
}

/// `plan` is what the generated struct needs of port `p`.
pub open spec fn is_plan_of(plan: PortPlan, p: PortDeclaration) -> bool {
    &&& plan.name@ == p.name@
    &&& plan.direction == p.direction
    &&& plan.lsb == p.lsb
    &&& plan.width == p.width
    &&& plan.msb == p.lsb + p.width - 1
    &&& interface_type(p.width as int, p.direction) == Some(plan.interface_type)
    &&& plan.wide_words == (if p.width > 64 {
        Some(word_count(p.width as int) as usize)
    } else {
        None
    })
    &&& plan.documentation@ == port_documentation(p)
    &&& plan.accessor@ == accessor_name(p)
}

/// The number of 32-bit words that hold `width` bits: the fewest words whose
/// bits cover the width.
pub fn wdata_word_count(width: usize) -> (words: usize)
    ensures
        words == word_count(width as int),
        width > 0 ==> 32 * (words - 1) < width <= 32 * words,
        width == 0 ==> words == 0,
{
    let words = width / 32 + if width % 32 != 0 { 1 } else { 0 };
    words
}

/// The interface type for a port, or `None` for a wide inout port.
pub fn interface_type_for(width: usize, direction: PortDirection) -> (r: Option<InterfaceType>)
    ensures
        r == interface_type(width as int, direction),
        width <= 8 ==> r == Some(InterfaceType::CData),
        8 < width <= 16 ==> r == Some(InterfaceType::SData),
        16 < width <= 32 ==> r == Some(InterfaceType::IData),
        32 < width <= 64 ==> r == Some(InterfaceType::QData),
        width > 64 && direction == PortDirection::Input ==> r == Some(InterfaceType::WDataInP),
        width > 64 && direction == PortDirection::Output ==> r == Some(InterfaceType::WDataOutP),
        width > 64 && direction == PortDirection::Inout ==> r is None,
{
    if width <= 8 {
        Some(InterfaceType::CData)
    } else if width <= 16 {
        Some(InterfaceType::SData)
    } else if width <= 32 {
        Some(InterfaceType::IData)
    } else if width <= 64 {
        Some(InterfaceType::QData)
    } else {
        match direction {
            PortDirection::Input => Some(InterfaceType::WDataInP),
            PortDirection::Output => Some(InterfaceType::WDataOutP),
            PortDirection::Inout => None,
        }
    }
}

fn direction_text(d: PortDirection) -> (s: String)
    ensures
        s@ == direction_keyword(d),
{
    match d {
        PortDirection::Input => String::from_str("input"),
        PortDirection::Output => String::from_str("output"),
        PortDirection::Inout => String::from_str("inout"),
    }
}

fn has_escape_char(name: &String) -> (r: bool)
    ensures
        r == is_escaped_name(name@),
{
    let s = name.as_str();
    let n = s.unicode_len();
    let mut i: usize = 0;
    while i < n
        invariant
            i <= n,
            n == name@.len(),
            s@ == name@,
            forall|k: int| 0 <= k < i ==> !(name@[k] == '\\' || name@[k] == ' '),
        decreases n - i,
    {
        let c = s.get_char(i);
        if c == '\\' || c == ' ' {
            return true;
        }
        i = i + 1;
    }
    false
}

proof fn lemma_ascii_ident_is_ascii(s: Seq<char>)
    requires
        ascii_ident(s),
    ensures
        all_ascii(s),
        ascii_format_ident_ok(s),
{
    assert forall|i: int| 0 <= i < s.len() implies (#[trigger] s[i] as u32) < 128 by {
        if i > 0 {
            assert(is_ascii_word_char(s[i]));
        }
    }
    if s.len() >= 2 && s[0] == 'r' && s[1] == '#' {
        assert(is_ascii_word_char(s[1]));
    }
}

/// `pin_` or `read_` before an ASCII identifier makes an ASCII identifier.
proof fn lemma_ascii_accessor(name: Seq<char>, accessor: Seq<char>)
    requires
        ascii_ident(name),
        accessor == "pin_"@ + name || accessor == "read_"@ + name,
        "pin_"@ == seq!['p', 'i', 'n', '_'],
        "read_"@ == seq!['r', 'e', 'a', 'd', '_'],
    ensures
        ascii_ident(accessor),
        all_ascii(accessor),
        ascii_format_ident_ok(accessor),
{
    let w = if accessor == "pin_"@ + name { "pin_"@ } else { "read_"@ };
    assert(accessor == w + name);
    assert forall|i: int| 1 <= i < accessor.len() implies is_ascii_word_char(#[trigger] accessor[i]) by {
        if i >= w.len() {
            assert(accessor[i] == name[i - w.len()]);
            if i - w.len() > 0 {
                assert(is_ascii_word_char(name[i - w.len()]));
            }
        }
    }
    assert(is_ascii_letter(accessor[0]));
    lemma_ascii_ident_is_ascii(accessor);
}

/// Decides, for one port, whether it can be bound and what its field looks
/// like.
pub fn plan_port(p: &PortDeclaration) -> (r: Result<PortPlan, PortErrorKind>)
    ensures
        match r {
            Ok(plan) => port_error(*p) is None && is_plan_of(plan, *p),
            Err(kind) => port_error(*p) == Some(kind),
        },
        1 <= p.lsb + p.width <= usize::MAX && p.direction != PortDirection::Inout && ascii_ident(
            p.name@,
        ) ==> r is Ok,
{
    proof {
        if ascii_ident(p.name@) {
            lemma_ascii_ident_is_ascii(p.name@);
            if is_escaped_name(p.name@) {
                let i = choose|i: int| 0 <= i < p.name@.len() && (p.name@[i] == '\\' || p.name@[i] == ' ');
                if i > 0 {
                    assert(is_ascii_word_char(p.name@[i]));
                }
            }
        }
    }
    if p.width == 0 && p.lsb == 0 || p.lsb > usize::MAX - p.width {
        return Err(PortErrorKind::MsbOverflow);
    }
    let msb = p.lsb + p.width - 1;
    if has_escape_char(&p.name) {
        return Err(PortErrorKind::EscapedName);
    }
    let interface_type = match interface_type_for(p.width, p.direction) {
        Some(t) => t,
        None => {
            return Err(PortErrorKind::UnsupportedInout { wide: true });
        },
    };
    if !format_ident_accepts(p.name.as_str()) {
        return Err(PortErrorKind::NotAnIdentifier);
    }
    let accessor = match p.direction {
        PortDirection::Input => {
            let mut a = String::from_str("pin_");
            a.append(p.name.as_str());
            a
        },
        PortDirection::Output => {
            let mut a = String::from_str("read_");
            a.append(p.name.as_str());
            a
        },
        PortDirection::Inout => {
            return Err(PortErrorKind::UnsupportedInout { wide: false });
        },
    };
    proof {
        if ascii_ident(p.name@) {
            reveal_strlit("pin_");
            reveal_strlit("read_");
            assert("pin_"@ =~= seq!['p', 'i', 'n', '_']);
            assert("read_"@ =~= seq!['r', 'e', 'a', 'd', '_']);
            lemma_ascii_accessor(p.name@, accessor@);
        }
    }
    if !format_ident_accepts(accessor.as_str()) {
        return Err(PortErrorKind::NotAnIdentifier);
    }
    let wide_words = if p.width > 64 {
        Some(wdata_word_count(p.width))
    } else {
        None
    };
    let mut documentation = String::from_str("Corresponds to Verilog `");
    documentation.append(direction_text(p.direction).as_str());
    documentation.append(" ");
    documentation.append(p.name.as_str());
    documentation.append("[");
    documentation.append(usize_to_decimal(msb).as_str());
    documentation.append(":");
    documentation.append(usize_to_decimal(p.lsb).as_str());
    documentation.append("]`.");
    Ok(
        PortPlan {
            name: p.name.clone(),
            direction: p.direction,
            lsb: p.lsb,
            width: p.width,
            msb,
            interface_type,
            wide_words,
            documentation,
            accessor,
        },
    )
}

/// The index of the first port that cannot be bound, if any.
pub open spec fn first_port_error(ports: Seq<PortDeclaration>) -> Option<BuildError>
    decreases ports.len(),
{
    if ports.len() == 0 {
        None
    } else {
        match first_port_error(ports.drop_last()) {
            Some(e) => Some(e),
            None => match port_error(ports.last()) {
                Some(kind) => Some(BuildError { port: (ports.len() - 1) as usize, kind }),
                None => None,
            },
        }
    }
}

/// Decides, for every port of the top module in declaration order, how the
/// generated struct binds it. Fails with the first port that cannot be bound;
/// otherwise returns one plan per port, in the same order.
pub fn build_verilated_struct(ports: &Vec<PortDeclaration>) -> (r: Result<Vec<PortPlan>, BuildError>)
    ensures
        match r {
            Ok(plans) => first_port_error(ports@) is None && plans@.len() == ports@.len() && forall|
                k: int,
            |
                0 <= k < ports@.len() ==> #[trigger] is_plan_of(plans@[k], ports@[k]),
            Err(e) => first_port_error(ports@) == Some(e),
        },
{
    let mut plans: Vec<PortPlan> = Vec::new();
    let mut k: usize = 0;
    while k < ports.len()
        invariant
            k <= ports@.len(),
            plans@.len() == k,
            first_port_error(ports@.take(k as int)) is None,
            forall|j: int| 0 <= j < k ==> #[trigger] is_plan_of(plans@[j], ports@[j]),
        decreases ports@.len() - k,
    {
        assert(ports@.take(k + 1).drop_last() =~= ports@.take(k as int));
        match plan_port(&ports[k]) {
            Ok(plan) => {
                plans.push(plan);
            },
            Err(kind) => {
                proof {
                    lemma_first_error_prefix(ports@, k as int + 1);
                }
                return Err(BuildError { port: k, kind });
            },
        }
        k = k + 1;
    }
    assert(ports@.take(k as int) =~= ports@);
    Ok(plans)
}

/// Once a prefix holds a refused port, the whole sequence fails at the same
/// port.
proof fn lemma_first_error_prefix(ports: Seq<PortDeclaration>, k: int)
    requires
        0 <= k <= ports.len(),
        first_port_error(ports.take(k)) is Some,
    ensures
        first_port_error(ports) == first_port_error(ports.take(k)),
    decreases ports.len(),
{
    if k < ports.len() {
        assert(ports.drop_last().take(k) =~= ports.take(k));
        lemma_first_error_prefix(ports.drop_last(), k);
    } else {
        assert(ports.take(k) =~= ports);
    }
}

/// A port's interface type is the smallest Verilator type that holds its
/// width: 8, 16, 32 or 64 bits, and beyond 64 bits a pointer to words, for
/// input or output alone.
pub proof fn law_interface_type_by_width(width: int, direction: PortDirection)
    ensures
        width <= 8 ==> interface_type(width, direction) == Some(InterfaceType::CData),
        8 < width <= 16 ==> interface_type(width, direction) == Some(InterfaceType::SData),
        16 < width <= 32 ==> interface_type(width, direction) == Some(InterfaceType::IData),
        32 < width <= 64 ==> interface_type(width, direction) == Some(InterfaceType::QData),
        width > 64 && direction == PortDirection::Input ==> interface_type(width, direction) == Some(
            InterfaceType::WDataInP,
        ),
        width > 64 && direction == PortDirection::Output ==> interface_type(width, direction) == Some(
            InterfaceType::WDataOutP,
        ),
        width > 64 && direction == PortDirection::Inout ==> interface_type(width, direction) is None,
{
}

/// A port can be bound exactly when its most significant bit can be computed,
/// its name holds no backslash or space, it is an input or an output, and
/// both its field name and its accessor name are identifiers.
pub proof fn law_port_bindable_exactly_when(p: PortDeclaration)
    ensures
        port_error(p) is None <==> (1 <= p.lsb + p.width <= usize::MAX && !is_escaped_name(p.name@)
            && p.direction != PortDirection::Inout && format_ident_ok(p.name@) && format_ident_ok(
            accessor_name(p),
        )),
{
}

/// Every port of a declaration list can be bound exactly when each one can:
/// the struct is refused only for a port that is refused on its own.
pub proof fn law_struct_bindable_exactly_when(ports: Seq<PortDeclaration>)
    requires
        ports.len() <= usize::MAX,
    ensures
        first_port_error(ports) is None <==> forall|k: int|
            0 <= k < ports.len() ==> #[trigger] port_error(ports[k]) is None,
        first_port_error(ports) matches Some(e) ==> 0 <= e.port < ports.len() && port_error(
            ports[e.port as int],
        ) == Some(e.kind) && forall|k: int| 0 <= k < e.port ==> #[trigger] port_error(ports[k]) is None,
    decreases ports.len(),
{
    if ports.len() > 0 {
        let front = ports.drop_last();
        law_struct_bindable_exactly_when(front);
        assert forall|k: int| 0 <= k < front.len() implies #[trigger] front[k] == ports[k] by {}
        if first_port_error(ports) is None {
            assert forall|k: int| 0 <= k < ports.len() implies #[trigger] port_error(ports[k]) is None by {
                if k < front.len() {
                    assert(front[k] == ports[k]);
                    assert(port_error(front[k]) is None);
                }
            }
        }
        if forall|k: int| 0 <= k < ports.len() ==> #[trigger] port_error(ports[k]) is None {
            assert forall|k: int| 0 <= k < front.len() implies #[trigger] port_error(front[k]) is None by {
                assert(port_error(ports[k]) is None);
            }
            assert(port_error(ports[ports.len() - 1]) is None);
        }
        if let Some(e) = first_port_error(front) {
            assert(front[e.port as int] == ports[e.port as int]);
            assert forall|k: int| 0 <= k < e.port implies #[trigger] port_error(ports[k]) is None by {
                assert(port_error(front[k]) is None);
            }
        } else {
            assert forall|k: int| 0 <= k < front.len() implies #[trigger] port_error(ports[k]) is None by {
                assert(port_error(front[k]) is None);
            }
        }
    }
}

} // verus!
