//! Human-readable reports: decimal rendering of sizes and the textual
//! description of registered types and of errors.  The numeric content of
//! every report is the layout engine's; this module only renders it.

use crate::layout::{
    big_of_type, lemma_packed_le_struct, list_named, max_size, prod_big, struct_size, sum_big,
    tied_packed, Mode,
};
use crate::type_system::{
    contains_name, idx_of, lemma_idx_of, valid_type, Atomic, Name, RegView, Struct, Type,
    TypeError, TypeErrorV, TypeManager, TypeV, Union,
};
use vstd::prelude::*;
use vstd::string::StringExecFns;

verus! {

/// The decimal digit character for `d` (a value below ten).
pub open spec fn dec_digit(d: nat) -> char {
    if d == 0 {
        '0'
    } else if d == 1 {
        '1'
    } else if d == 2 {
        '2'
    } else if d == 3 {
        '3'
    } else if d == 4 {
        '4'
    } else if d == 5 {
        '5'
    } else if d == 6 {
        '6'
    } else if d == 7 {
        '7'
    } else if d == 8 {
        '8'
    } else {
        '9'
    }
}

/// The decimal rendering of `n`, most significant digit first.
pub open spec fn dec_chars(n: nat) -> Seq<char>
    decreases n,
{
    if n < 10 {
        seq![dec_digit(n)]
    } else {
        dec_chars(n / 10).push(dec_digit(n % 10))
    }
}

/// Append the decimal rendering of `n` to `s`.
fn push_decimal(s: &mut String, n: usize)
    ensures
        final(s)@ == old(s)@ + dec_chars(n as nat),
    decreases n,
{
    let ghost mid = s@;
    if n >= 10 {
        push_decimal(s, n / 10);
    }
    let d: usize = n % 10;
    if d == 0 {
        s.append("0");
        proof {
            reveal_strlit("0");
            assert("0"@ =~= seq![dec_digit(d as nat)]);
        }
    } else if d == 1 {
        s.append("1");
        proof {
            reveal_strlit("1");
            assert("1"@ =~= seq![dec_digit(d as nat)]);
        }
    } else if d == 2 {
        s.append("2");
        proof {
            reveal_strlit("2");
            assert("2"@ =~= seq![dec_digit(d as nat)]);
        }
    } else if d == 3 {
        s.append("3");
        proof {
            reveal_strlit("3");
            assert("3"@ =~= seq![dec_digit(d as nat)]);
        }
    } else if d == 4 {
        s.append("4");
        proof {
            reveal_strlit("4");
            assert("4"@ =~= seq![dec_digit(d as nat)]);
        }
    } else if d == 5 {
        s.append("5");
        proof {
            reveal_strlit("5");
            assert("5"@ =~= seq![dec_digit(d as nat)]);
        }
    } else if d == 6 {
        s.append("6");
        proof {
            reveal_strlit("6");
            assert("6"@ =~= seq![dec_digit(d as nat)]);
        }
    } else if d == 7 {
        s.append("7");
        proof {
            reveal_strlit("7");
            assert("7"@ =~= seq![dec_digit(d as nat)]);
        }
    } else if d == 8 {
        s.append("8");
        proof {
            reveal_strlit("8");
            assert("8"@ =~= seq![dec_digit(d as nat)]);
        }
    } else {
        s.append("9");
        proof {
            reveal_strlit("9");
            assert("9"@ =~= seq![dec_digit(d as nat)]);
        }
    }
    proof {
        if n < 10 {
            assert(s@ =~= mid + dec_chars(n as nat));
        } else {
            assert(dec_chars(n as nat) == dec_chars(n as nat / 10).push(dec_digit(n as nat % 10)));
            assert(s@ =~= mid + dec_chars(n as nat));
        }
    }
}

/// The report for an atomic type: its stored size and alignment.
pub open spec fn atomic_display_spec(rep: nat, align: nat) -> Seq<char> {
    "Atomic:\n   * representation: "@ + dec_chars(rep) + "\n   * alignment: "@ + dec_chars(align)
        + "\n"@
}

/// One mode's block in a compound type's report: the size and the padding
/// loss relative to the packed size.
pub open spec fn mode_block_spec(label: Seq<char>, size: nat, loss: nat) -> Seq<char> {
    "   * "@ + label + ":\n      + size: "@ + dec_chars(size) + "\n      + loss: "@ + dec_chars(
        loss,
    ) + "\n"@
}

/// A union's padding loss under `mode`: its size minus the largest packed
/// size among the variants whose size under `mode` equals the union's.
pub open spec fn union_loss_spec(entries: RegView, names: Seq<Seq<char>>, b: int, mode: Mode) -> nat {
    (max_size(entries, names, b, mode) - tied_packed(
        entries,
        names,
        b,
        mode,
        max_size(entries, names, b, mode),
    )) as nat
}

/// The report for a struct: size and loss under each of the three modes.
pub open spec fn struct_display_spec(entries: RegView, members: Seq<Seq<char>>, b: int) -> Seq<
    char,
> {
    let opt = struct_size(entries, members, b, Mode::Optimized);
    let unp = struct_size(entries, members, b, Mode::Unpacked);
    let pak = struct_size(entries, members, b, Mode::Packed);
    "Struct:\n"@ + mode_block_spec("optimized"@, opt, (opt - pak) as nat) + mode_block_spec(
        "unpacked"@,
        unp,
        (unp - pak) as nat,
    ) + mode_block_spec("packed"@, pak, 0)
}

/// The report for a union: size and loss under each of the three modes.
pub open spec fn union_display_spec(entries: RegView, variants: Seq<Seq<char>>, b: int) -> Seq<
    char,
> {
    "Union:\n"@ + mode_block_spec(
        "optimized"@,
        max_size(entries, variants, b, Mode::Optimized),
        union_loss_spec(entries, variants, b, Mode::Optimized),
    ) + mode_block_spec(
        "unpacked"@,
        max_size(entries, variants, b, Mode::Unpacked),
        union_loss_spec(entries, variants, b, Mode::Unpacked),
    ) + mode_block_spec(
        "packed"@,
        max_size(entries, variants, b, Mode::Packed),
        union_loss_spec(entries, variants, b, Mode::Packed),
    )
}

/// The report for any registered definition.
pub open spec fn type_display_spec(entries: RegView, t: TypeV) -> Seq<char> {
    match t {
        TypeV::Atomic { rep, align } => atomic_display_spec(rep, align),
        TypeV::Struct { members } => struct_display_spec(entries, members, entries.len() as int),
        TypeV::Union { variants } => union_display_spec(entries, variants, entries.len() as int),
    }
}

/// The message for each error.
pub open spec fn type_error_display_spec(e: TypeErrorV) -> Seq<char> {
    match e {
        TypeErrorV::TypeRedefinition => "cannot redefine an existing type"@,
        TypeErrorV::TypeDoesNotExist(s) => "the symbol '"@ + s + "' does not exist"@,
        TypeErrorV::EmptyCompoundType => "empty compound types are not allowed"@,
        TypeErrorV::NoZeroSizedType => "zero-sized types are not allowed"@,
        TypeErrorV::NoZeroAlign => "zero alignment is not allowed"@,
    }
}

impl Atomic {
    /// A human-readable description of this atomic type.
    pub fn display(&self) -> (r: String)
        ensures
            r@ == atomic_display_spec(self.representation as nat, self.alignment as nat),
    {
        let mut s = "Atomic:\n   * representation: ".to_owned();
        push_decimal(&mut s, self.representation);
        s.append("\n   * alignment: ");
        push_decimal(&mut s, self.alignment);
        s.append("\n");
        proof {
            assert(s@ =~= atomic_display_spec(
                self.representation as nat,
                self.alignment as nat,
            ));
        }
        s
    }
}

/// Append one mode's block to the report under construction.
fn push_mode_block(s: &mut String, label: &str, size: usize, loss: usize)
    ensures
        final(s)@ == old(s)@ + mode_block_spec(label@, size as nat, loss as nat),
{
    s.append("   * ");
    s.append(label);
    s.append(":\n      + size: ");
    push_decimal(s, size);
    s.append("\n      + loss: ");
    push_decimal(s, loss);
    s.append("\n");
    proof {
        assert(s@ =~= old(s)@ + mode_block_spec(label@, size as nat, loss as nat));
    }
}

impl Struct {
    /// A human-readable description of this struct: size and padding loss
    /// under each of the three layout strategies.
    pub fn display(&self, manager: &TypeManager) -> (r: String)
        requires
            manager.wf(),
            list_named(manager@, self.members.deep_view(), manager@.len() as int),
            self.members@.len() > 0,
            sum_big(manager@, self.members.deep_view(), manager@.len() as int) < usize::MAX,
        ensures
            r@ == struct_display_spec(manager@, self.members.deep_view(), manager@.len() as int),
    {
        let ghost entries = manager@;
        let ghost dv = self.members.deep_view();
        let ghost b = entries.len() as int;
        let optimal_size = self.optimized_size(manager);
        let unpacked_size = self.unpacked_size(manager);
        let packed_size = self.packed_size(manager);
        proof {
            lemma_packed_le_struct(entries, dv, b, Mode::Optimized);
            lemma_packed_le_struct(entries, dv, b, Mode::Unpacked);
        }
        let mut s = "Struct:\n".to_owned();
        push_mode_block(&mut s, "optimized", optimal_size, optimal_size - packed_size);
        push_mode_block(&mut s, "unpacked", unpacked_size, unpacked_size - packed_size);
        push_mode_block(&mut s, "packed", packed_size, 0);
        proof {
            assert(s@ =~= struct_display_spec(entries, dv, b));
        }
        s
    }
}

impl Union {
    /// A human-readable description of this union: size and padding loss
    /// under each of the three layout strategies.
    pub fn display(&self, manager: &TypeManager) -> (r: String)
        requires
            manager.wf(),
            list_named(manager@, self.variants.deep_view(), manager@.len() as int),
            self.variants@.len() >= 1,
            prod_big(manager@, self.variants.deep_view(), manager@.len() as int) <= usize::MAX,
        ensures
            r@ == union_display_spec(manager@, self.variants.deep_view(), manager@.len() as int),
    {
        let ghost entries = manager@;
        let ghost dv = self.variants.deep_view();
        let ghost b = entries.len() as int;
        let unpacked_size = self.size(manager, Mode::Unpacked);
        let unpacked_loss = self.loss(manager, Mode::Unpacked);
        let packed_size = self.size(manager, Mode::Packed);
        let packed_loss = self.loss(manager, Mode::Packed);
        let optimal_size = self.size(manager, Mode::Optimized);
        let optimal_loss = self.loss(manager, Mode::Optimized);
        let mut s = "Union:\n".to_owned();
        push_mode_block(&mut s, "optimized", optimal_size, optimal_loss);
        push_mode_block(&mut s, "unpacked", unpacked_size, unpacked_loss);
        push_mode_block(&mut s, "packed", packed_size, packed_loss);
        proof {
            assert(s@ =~= union_display_spec(entries, dv, b));
        }
        s
    }
}

impl Type {
    /// A human-readable description of this type.
    pub fn display(&self, manager: &TypeManager) -> (r: String)
        requires
            manager.wf(),
            valid_type(manager@, self@),
            big_of_type(manager@, self@) <= usize::MAX,
        ensures
            r@ == type_display_spec(manager@, self@),
    {
        match self {
            Type::Atomic(a) => a.display(),
            Type::Struct(s) => s.display(manager),
            Type::Union(u) => u.display(manager),
        }
    }
}

impl TypeManager {
    /// A human-readable report about a single registered type, or
    /// `TypeDoesNotExist` if the name is not registered.
    pub fn display(&self, typename: &Name) -> (r: Result<String, TypeError>)
        requires
            self.wf(),
            contains_name(self@, typename@) ==> big_of_type(
                self@,
                self@[idx_of(self@, typename@)].1,
            ) <= usize::MAX,
        ensures
            match r {
                Ok(msg) => contains_name(self@, typename@) && msg@ == type_display_spec(
                    self@,
                    self@[idx_of(self@, typename@)].1,
                ),
                Err(e) => !contains_name(self@, typename@) && e@ == TypeErrorV::TypeDoesNotExist(
                    typename@,
                ),
            },
    {
        match self.get(typename) {
            None => Err(TypeError::TypeDoesNotExist(typename.clone())),
            Some(t) => {
                proof {
                    broadcast use lemma_idx_of;

                    let k = idx_of(self@, typename@);
                    assert(crate::type_system::entry_ok(self@, k));
                    crate::type_system::lemma_type_ok_mono(
                        self@,
                        self@[k].1,
                        k,
                        self@.len() as int,
                    );
                }
                Ok(t.display(self))
            },
        }
    }
}

impl TypeError {
    /// A human-readable message for this error.
    pub fn display(&self) -> (r: String)
        ensures
            r@ == type_error_display_spec(self@),
    {
        match self {
            TypeError::TypeRedefinition => "cannot redefine an existing type".to_owned(),
            TypeError::TypeDoesNotExist(s) => {
                let mut m = "the symbol '".to_owned();
                m.append(s.as_str());
                m.append("' does not exist");
                proof {
                    assert(m@ =~= type_error_display_spec(self@));
                }
                m
            },
            TypeError::EmptyCompoundType => "empty compound types are not allowed".to_owned(),
            TypeError::NoZeroSizedType => "zero-sized types are not allowed".to_owned(),
            TypeError::NoZeroAlign => "zero alignment is not allowed".to_owned(),
        }
    }
}

} // verus!
