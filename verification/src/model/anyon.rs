use vstd::prelude::*;
use vstd::string::StringExecFns;

verus! {

/// Topological charges of the Ising category, in the order of their indices
/// in a charge-count vector.
#[derive(Copy, Clone, Debug, PartialEq, Eq, Structural, Hash)]
pub enum IsingTopoCharge {
    Psi,
    Vacuum,
    Sigma,
}

/// Topological charges of the Fibonacci category, in the order of their
/// indices in a charge-count vector.
#[derive(Copy, Clone, Debug, PartialEq, Eq, Structural, Hash)]
pub enum FibonacciTopoCharge {
    Tau,
    Vacuum,
}

/// Why a charge could not be built or read in the category asked for.
#[derive(Copy, Clone, Debug, PartialEq, Eq, Structural, Hash)]
pub enum ChargeError {
    /// A charge of both categories at once was asked for.
    TwoCategories,
    /// No charge of either category was given.
    NoCategory,
    /// An Ising charge was asked of a charge of another category.
    NotIsing,
    /// A Fibonacci charge was asked of a charge of another category.
    NotFibonacci,
}

/// A topological charge, tagged with the one category it belongs to.
#[derive(Copy, Clone, Debug, PartialEq, Eq, Structural, Hash)]
pub enum TopoCharge {
    Ising(IsingTopoCharge),
    Fibonacci(FibonacciTopoCharge),
}

impl IsingTopoCharge {
    /// Index of the charge in a charge-count vector of the Ising category.
    pub open spec fn index(self) -> int {
        match self {
            IsingTopoCharge::Psi => 0,
            IsingTopoCharge::Vacuum => 1,
            IsingTopoCharge::Sigma => 2,
        }
    }

    /// Name of the charge.
    pub open spec fn label(self) -> Seq<char> {
        match self {
            IsingTopoCharge::Psi => "Psi"@,
            IsingTopoCharge::Vacuum => "Vacuum"@,
            IsingTopoCharge::Sigma => "Sigma"@,
        }
    }

    /// Index of the charge in a charge-count vector.
    pub fn value(&self) -> (v: usize)
        ensures
            v == self.index(),
    {
        match self {
            IsingTopoCharge::Psi => 0,
            IsingTopoCharge::Vacuum => 1,
            IsingTopoCharge::Sigma => 2,
        }
    }

    /// Name of the charge.
    pub fn to_string(&self) -> (s: &'static str)
        ensures
            s@ == self.label(),
    {
        match self {
            IsingTopoCharge::Psi => "Psi",
            IsingTopoCharge::Vacuum => "Vacuum",
            IsingTopoCharge::Sigma => "Sigma",
        }
    }

    /// The Ising charge that `value` holds, or `NotIsing` for a charge of
    /// another category.
    pub fn try_from(value: &TopoCharge) -> (r: Result<IsingTopoCharge, ChargeError>)
        ensures
            r == match *value {
                TopoCharge::Ising(c) => Ok::<IsingTopoCharge, ChargeError>(c),
                TopoCharge::Fibonacci(_) => Err(ChargeError::NotIsing),
            },
    {
        match value {
            TopoCharge::Ising(c) => Ok(*c),
            TopoCharge::Fibonacci(_) => Err(ChargeError::NotIsing),
        }
    }
}

impl FibonacciTopoCharge {
    /// Index of the charge in a charge-count vector of the Fibonacci category.
    pub open spec fn index(self) -> int {
        match self {
            FibonacciTopoCharge::Tau => 0,
            FibonacciTopoCharge::Vacuum => 1,
        }
    }

    /// Name of the charge.
    pub open spec fn label(self) -> Seq<char> {
        match self {
            FibonacciTopoCharge::Tau => "Tau"@,
            FibonacciTopoCharge::Vacuum => "Vacuum"@,
        }
    }

    /// Index of the charge in a charge-count vector.
    pub fn value(&self) -> (v: usize)
        ensures
            v == self.index(),
    {
        match self {
            FibonacciTopoCharge::Tau => 0,
            FibonacciTopoCharge::Vacuum => 1,
        }
    }

    /// Name of the charge.
    pub fn to_string(&self) -> (s: &'static str)
        ensures
            s@ == self.label(),
    {
        match self {
            FibonacciTopoCharge::Tau => "Tau",
            FibonacciTopoCharge::Vacuum => "Vacuum",
        }
    }

    /// The Fibonacci charge that `value` holds, or `NotFibonacci` for a
    /// charge of another category.
    pub fn try_from(value: &TopoCharge) -> (r: Result<FibonacciTopoCharge, ChargeError>)
        ensures
            r == match *value {
                TopoCharge::Fibonacci(c) => Ok::<FibonacciTopoCharge, ChargeError>(c),
                TopoCharge::Ising(_) => Err(ChargeError::NotFibonacci),
            },
    {
        match value {
            TopoCharge::Fibonacci(c) => Ok(*c),
            TopoCharge::Ising(_) => Err(ChargeError::NotFibonacci),
        }
    }
}

impl TopoCharge {
    /// Name of the charge within its category.
    pub open spec fn label(self) -> Seq<char> {
        match self {
            TopoCharge::Ising(c) => c.label(),
            TopoCharge::Fibonacci(c) => c.label(),
        }
    }

    /// Builds a charge from the charge given for exactly one category.
    /// A charge given for both categories, or for none, is refused.
    pub fn new(ising: Option<IsingTopoCharge>, fibonacci: Option<FibonacciTopoCharge>) -> (r: Result<
        Self,
        ChargeError,
    >)
        ensures
            r == match (ising, fibonacci) {
                (Some(c), None) => Ok::<TopoCharge, ChargeError>(TopoCharge::Ising(c)),
                (None, Some(c)) => Ok(TopoCharge::Fibonacci(c)),
                (Some(_), Some(_)) => Err(ChargeError::TwoCategories),
                (None, None) => Err(ChargeError::NoCategory),
            },
    {
        match (ising, fibonacci) {
            (Some(c), None) => Ok(TopoCharge::Ising(c)),
            (None, Some(c)) => Ok(TopoCharge::Fibonacci(c)),
            (Some(_), Some(_)) => Err(ChargeError::TwoCategories),
            (None, None) => Err(ChargeError::NoCategory),
        }
    }

    /// The charge `ising` of the Ising category.
    pub fn from_ising(ising: IsingTopoCharge) -> (c: Self)
        ensures
            c == TopoCharge::Ising(ising),
    {
        TopoCharge::Ising(ising)
    }

    /// The charge `fibonacci` of the Fibonacci category.
    pub fn from_fibonacci(fibonacci: FibonacciTopoCharge) -> (c: Self)
        ensures
            c == TopoCharge::Fibonacci(fibonacci),
    {
        TopoCharge::Fibonacci(fibonacci)
    }

    /// Whether the charge belongs to the Ising category.
    pub fn is_ising(&self) -> (b: bool)
        ensures
            b == (*self is Ising),
    {
        match self {
            TopoCharge::Ising(_) => true,
            TopoCharge::Fibonacci(_) => false,
        }
    }

    /// Whether the charge belongs to the Fibonacci category.
    pub fn is_fibonacci(&self) -> (b: bool)
        ensures
            b == (*self is Fibonacci),
    {
        match self {
            TopoCharge::Ising(_) => false,
            TopoCharge::Fibonacci(_) => true,
        }
    }

    /// The charge, of a charge of the Ising category.
    pub fn get_ising(&self) -> (c: IsingTopoCharge)
        requires
            *self is Ising,
        ensures
            *self == TopoCharge::Ising(c),
    {
        match self {
            TopoCharge::Ising(c) => *c,
            TopoCharge::Fibonacci(_) => unreached(),
        }
    }

    /// The charge, of a charge of the Fibonacci category.
    pub fn get_fibonacci(&self) -> (c: FibonacciTopoCharge)
        requires
            *self is Fibonacci,
        ensures
            *self == TopoCharge::Fibonacci(c),
    {
        match self {
            TopoCharge::Fibonacci(c) => *c,
            TopoCharge::Ising(_) => unreached(),
        }
    }

    /// Name of the charge within its category.
    pub fn to_string(&self) -> (s: String)
        ensures
            s@ == self.label(),
    {
        match self {
            TopoCharge::Ising(c) => String::from_str(c.to_string()),
            TopoCharge::Fibonacci(c) => String::from_str(c.to_string()),
        }
    }
}

/// What an anyon is, as plain values.
pub struct AnyonView {
    pub name: Seq<char>,
    pub charge: TopoCharge,
    pub position: (u64, u64),
}

/// A quasiparticle of the system: a label, a topological charge and a place
/// in the plane. An anyon does not change once it is made; a fusion gives
/// the surviving index a new charge state and leaves the anyon as it was.
///
/// The two coordinates of the position are held as the IEEE 754 bit
/// patterns of double-precision numbers. The position is never looked at by
/// the fusion rules.
#[derive(Debug, PartialEq, Eq)]
pub struct Anyon {
    name: String,
    charge: TopoCharge,
    position: (u64, u64),
}

impl View for Anyon {
    type V = AnyonView;

    closed spec fn view(&self) -> AnyonView {
        AnyonView { name: self.name@, charge: self.charge, position: self.position }
    }
}

impl Clone for Anyon {
    fn clone(&self) -> (copy: Self)
        ensures
            copy == *self,
    {
        Anyon { name: self.name.clone(), charge: self.charge, position: self.position }
    }
}

impl Anyon {
    /// The anyon with the label `name` and the charge `charge` at `position`.
    pub fn new(name: String, charge: TopoCharge, position: (u64, u64)) -> (anyon: Self)
        ensures
            anyon@ == (AnyonView { name: name@, charge: charge, position: position }),
    {
        Anyon { name, charge, position }
    }

    /// The label of the anyon.
    pub fn name(&self) -> (name: &str)
        ensures
            name@ == self@.name,
    {
        self.name.as_str()
    }

    /// The topological charge of the anyon.
    pub fn charge(&self) -> (charge: TopoCharge)
        ensures
            charge == self@.charge,
    {
        self.charge
    }

    /// The bit patterns of the two coordinates of the anyon.
    pub fn position(&self) -> (position: (u64, u64))
        ensures
            position == self@.position,
    {
        self.position
    }
}

} // verus!
