//! Shapes of tensors, the sources of their data, and workgroup shapes.
use vstd::prelude::*;
use vstd::slice::slice_to_vec;
use vstd::string::*;

use crate::module::{decimal, push_decimal};

verus! {

pub open spec fn dims_sum(s: Seq<u32>) -> int
    decreases s.len(),
{
    if s.len() == 0 {
        0
    } else {
        dims_sum(s.drop_last()) + s.last()
    }
}

pub open spec fn dims_product(s: Seq<u32>) -> int
    decreases s.len(),
{
    if s.len() == 0 {
        1
    } else {
        dims_product(s.drop_last()) * s.last()
    }
}

proof fn lemma_sum_prefix(s: Seq<u32>, k: int)
    requires
        0 <= k <= s.len(),
    ensures
        0 <= dims_sum(s.take(k)) <= dims_sum(s),
    decreases s.len() - k,
{
    if k < s.len() {
        lemma_sum_prefix(s, k + 1);
        assert(s.take(k + 1).drop_last() =~= s.take(k));
    } else {
        assert(s.take(k) =~= s);
    }
    lemma_sum_nonneg(s.take(k));
}

proof fn lemma_sum_nonneg(s: Seq<u32>)
    ensures
        dims_sum(s) >= 0,
    decreases s.len(),
{
    if s.len() > 0 {
        lemma_sum_nonneg(s.drop_last());
    }
}

proof fn lemma_product_prefix(s: Seq<u32>, k: int)
    requires
        0 <= k <= s.len(),
        forall|i: int| 0 <= i < s.len() ==> s[i] >= 1,
    ensures
        1 <= dims_product(s.take(k)) <= dims_product(s),
    decreases s.len() - k,
{
    if k < s.len() {
        lemma_product_prefix(s, k + 1);
        let t = s.take(k + 1);
        assert(t.drop_last() =~= s.take(k));
        lemma_product_positive(s.take(k));
        let a = dims_product(s.take(k));
        let b = s[k] as int;
        assert(a <= a * b) by (nonlinear_arith)
            requires
                a >= 1,
                b >= 1,
        ;
    } else {
        assert(s.take(k) =~= s);
        lemma_product_positive(s);
    }
}

proof fn lemma_product_positive(s: Seq<u32>)
    requires
        forall|i: int| 0 <= i < s.len() ==> s[i] >= 1,
    ensures
        dims_product(s) >= 1,
    decreases s.len(),
{
    if s.len() > 0 {
        lemma_product_positive(s.drop_last());
        let a = dims_product(s.drop_last());
        let b = s.last() as int;
        assert(a * b >= 1) by (nonlinear_arith)
            requires
                a >= 1,
                b >= 1,
        ;
    }
}

proof fn lemma_product_zero(s: Seq<u32>, i: int)
    requires
        0 <= i < s.len(),
        s[i] == 0,
    ensures
        dims_product(s) == 0,
    decreases s.len(),
{
    if i < s.len() - 1 {
        lemma_product_zero(s.drop_last(), i);
    }
    assert(dims_product(s) == dims_product(s.drop_last()) * s.last());
    if i == s.len() - 1 {
        assert(s.last() == 0);
    }
}

/// The shape of a tensor: its dimensions.
#[derive(Debug)]
pub struct TensorOrder {
    src: Vec<u32>,
}

impl TensorOrder {
    pub closed spec fn dims(&self) -> Seq<u32> {
        self.src@
    }

    pub fn new(src: Vec<u32>) -> (r: Self)
        ensures
            r.dims() == src@,
    {
        TensorOrder { src }
    }

    /// The sum of the dimensions.
    pub fn count(&self) -> (r: u32)
        requires
            dims_sum(self.dims()) <= u32::MAX,
        ensures
            r == dims_sum(self.dims()),
    {
        let mut total: u32 = 0;
        let mut k: usize = 0;
        while k < self.src.len()
            invariant
                k <= self.src@.len(),
                dims_sum(self.src@) <= u32::MAX,
                total == dims_sum(self.src@.take(k as int)),
            decreases self.src@.len() - k,
        {
            proof {
                lemma_sum_prefix(self.src@, k as int + 1);
                assert(self.src@.take(k as int + 1).drop_last() =~= self.src@.take(k as int));
            }
            total = total + self.src[k];
            k = k + 1;
        }
        assert(self.src@.take(k as int) =~= self.src@);
        total
    }

    /// A copy of the dimensions.
    pub fn pull(&self) -> (r: Vec<u32>)
        ensures
            r@ == self.dims(),
    {
        slice_to_vec(self.src.as_slice())
    }

    /// The number of elements: the product of the dimensions.
    pub fn size(&self) -> (r: u32)
        requires
            dims_product(self.dims()) <= u32::MAX,
        ensures
            r == dims_product(self.dims()),
    {
        let mut k: usize = 0;
        while k < self.src.len()
            invariant
                k <= self.src@.len(),
                forall|i: int| 0 <= i < k ==> self.src@[i] >= 1,
            decreases self.src@.len() - k,
        {
            if self.src[k] == 0 {
                proof {
                    lemma_product_zero(self.src@, k as int);
                }
                return 0;
            }
            k = k + 1;
        }
        let mut total: u32 = 1;
        let mut k: usize = 0;
        while k < self.src.len()
            invariant
                k <= self.src@.len(),
                forall|i: int| 0 <= i < self.src@.len() ==> self.src@[i] >= 1,
                dims_product(self.src@) <= u32::MAX,
                total == dims_product(self.src@.take(k as int)),
            decreases self.src@.len() - k,
        {
            proof {
                lemma_product_prefix(self.src@, k as int + 1);
                assert(self.src@.take(k as int + 1).drop_last() =~= self.src@.take(k as int));
            }
            total = total * self.src[k];
            k = k + 1;
        }
        assert(self.src@.take(k as int) =~= self.src@);
        total
    }

    /// The number of elements, or `None` when it exceeds `u32::MAX`.
    pub fn checked_size(&self) -> (r: Option<u32>)
        ensures
            r == if dims_product(self.dims()) <= u32::MAX {
                Some(dims_product(self.dims()) as u32)
            } else {
                None::<u32>
            },
            r matches Some(c) ==> c as int == dims_product(self.dims()),
    {
        let mut k: usize = 0;
        while k < self.src.len()
            invariant
                k <= self.src@.len(),
                forall|i: int| 0 <= i < k ==> self.src@[i] >= 1,
            decreases self.src@.len() - k,
        {
            if self.src[k] == 0 {
                proof {
                    lemma_product_zero(self.src@, k as int);
                }
                return Some(0);
            }
            k = k + 1;
        }
        let mut total: u64 = 1;
        let mut k: usize = 0;
        while k < self.src.len()
            invariant
                k <= self.src@.len(),
                forall|i: int| 0 <= i < self.src@.len() ==> self.src@[i] >= 1,
                total <= u32::MAX,
                total == dims_product(self.src@.take(k as int)),
            decreases self.src@.len() - k,
        {
            proof {
                lemma_product_prefix(self.src@, k as int + 1);
                assert(self.src@.take(k as int + 1).drop_last() =~= self.src@.take(k as int));
                assert(total * (self.src@[k as int] as int) <= u32::MAX * u32::MAX) by (nonlinear_arith)
                    requires
                        0 <= total <= u32::MAX,
                        0 <= self.src@[k as int] <= u32::MAX,
                ;
            }
            total = total * self.src[k] as u64;
            if total > 0xFFFF_FFFFu64 {
                return None;
            }
            k = k + 1;
        }
        assert(self.src@.take(k as int) =~= self.src@);
        Some(total as u32)
    }

    /// Whether every dimension equals the first.
    pub fn square(&self) -> (r: bool)
        ensures
            r == forall|i: int| 0 <= i < self.dims().len() ==> #[trigger] self.dims()[i] == self.dims()[0],
    {
        let mut k: usize = 0;
        while k < self.src.len()
            invariant
                k <= self.src@.len(),
                forall|i: int| 0 <= i < k ==> #[trigger] self.src@[i] == self.src@[0],
            decreases self.src@.len() - k,
        {
            if self.src[k] != self.src[0] {
                assert(self.dims()[k as int] != self.dims()[0]);
                return false;
            }
            k = k + 1;
        }
        true
    }

    /// Whether two shapes have the same dimensions.
    pub fn matches(&self, other: &TensorOrder) -> (r: bool)
        ensures
            r == (self.dims() == other.dims()),
    {
        if self.src.len() != other.src.len() {
            return false;
        }
        let mut k: usize = 0;
        while k < self.src.len()
            invariant
                k <= self.src@.len(),
                self.src@.len() == other.src@.len(),
                forall|i: int| 0 <= i < k ==> self.src@[i] == other.src@[i],
            decreases self.src@.len() - k,
        {
            if self.src[k] != other.src[k] {
                return false;
            }
            k = k + 1;
        }
        assert(self.src@ =~= other.src@);
        true
    }
}

/// The dimensions of the first `k` entries, separated by commas.
pub open spec fn dims_text(s: Seq<u32>, k: int) -> Seq<char>
    decreases k,
{
    if k <= 0 {
        Seq::<char>::empty()
    } else if k == 1 {
        decimal(s[0] as nat)
    } else {
        dims_text(s, k - 1) + ", "@ + decimal(s[k - 1] as nat)
    }
}

impl TensorOrder {
    /// A human-readable account of the shape.
    pub fn describe(&self) -> (r: String)
        ensures
            r@ == "Tensor of shape: ["@ + dims_text(self.dims(), self.dims().len() as int) + "]."@,
    {
        let mut out = String::from_str("Tensor of shape: [");
        let ghost c0 = out@;
        let mut k: usize = 0;
        while k < self.src.len()
            invariant
                k <= self.src@.len(),
                out@ == c0 + dims_text(self.src@, k as int),
            decreases self.src@.len() - k,
        {
            if k > 0 {
                out.append(", ");
            }
            push_decimal(&mut out, self.src[k] as u64);
            proof {
                let d = decimal(self.src@[k as int] as nat);
                if k == 0 {
                    assert(dims_text(self.src@, 1) == d);
                    assert(out@ =~= c0 + d);
                } else {
                    let t = dims_text(self.src@, k as int);
                    assert(dims_text(self.src@, k as int + 1) == t + ", "@ + d);
                    assert(out@ =~= c0 + (t + ", "@ + d));
                }
            }
            k = k + 1;
        }
        out.append("].");
        assert(out@ =~= "Tensor of shape: ["@ + dims_text(self.src@, self.src@.len() as int) + "]."@);
        out
    }
}

/// Shapes of rank up to three.
#[derive(Clone, Copy, Debug, PartialEq, Eq, Structural)]
pub enum TensorRank {
    Scalar,
    Vector(u64),
    Matrix(u64, u64),
    Cube(u64, u64, u64),
}

pub open spec fn rank_size(r: TensorRank) -> int {
    match r {
        TensorRank::Scalar => 1,
        TensorRank::Vector(x) => x as int,
        TensorRank::Matrix(x, y) => x * y,
        TensorRank::Cube(x, y, z) => x * y * z,
    }
}

pub open spec fn rank_text(r: TensorRank) -> Seq<char> {
    match r {
        TensorRank::Scalar => "Tensor has implied shape."@,
        TensorRank::Vector(x) => "Tensor has shape ("@ + decimal(x as nat) + ")"@,
        TensorRank::Matrix(x, y) => "Tensor has shape ("@ + decimal(x as nat) + ", "@ + decimal(y as nat) + ")"@,
        TensorRank::Cube(x, y, z) => "Tensor has shape ("@ + decimal(x as nat) + ", "@ + decimal(y as nat) + ", "@
            + decimal(z as nat) + ")"@,
    }
}

impl TensorRank {
    /// A human-readable account of the shape.
    pub fn describe(&self) -> (r: String)
        ensures
            r@ == rank_text(*self),
    {
        match self {
            TensorRank::Scalar => String::from_str("Tensor has implied shape."),
            TensorRank::Vector(x) => {
                let mut out = String::from_str("Tensor has shape (");
                push_decimal(&mut out, *x);
                out.append(")");
                assert(out@ =~= rank_text(*self));
                out
            },
            TensorRank::Matrix(x, y) => {
                let mut out = String::from_str("Tensor has shape (");
                push_decimal(&mut out, *x);
                out.append(", ");
                push_decimal(&mut out, *y);
                out.append(")");
                assert(out@ =~= rank_text(*self));
                out
            },
            TensorRank::Cube(x, y, z) => {
                let mut out = String::from_str("Tensor has shape (");
                push_decimal(&mut out, *x);
                out.append(", ");
                push_decimal(&mut out, *y);
                out.append(", ");
                push_decimal(&mut out, *z);
                out.append(")");
                assert(out@ =~= rank_text(*self));
                out
            },
        }
    }

    /// Whether every dimension is equal; a scalar or a vector is not square.
    pub fn square(&self) -> (r: bool)
        ensures
            r == match *self {
                TensorRank::Scalar => false,
                TensorRank::Vector(_) => false,
                TensorRank::Matrix(x, y) => x == y,
                TensorRank::Cube(x, y, z) => x == y && y == z,
            },
    {
        match self {
            TensorRank::Scalar => false,
            TensorRank::Vector(_) => false,
            TensorRank::Matrix(x, y) => *x == *y,
            TensorRank::Cube(x, y, z) => *x == *y && *y == *z,
        }
    }

    /// The number of elements.
    pub fn size(&self) -> (r: u64)
        requires
            rank_size(*self) <= u64::MAX,
        ensures
            r == rank_size(*self),
    {
        match self {
            TensorRank::Scalar => 1,
            TensorRank::Vector(x) => *x,
            TensorRank::Matrix(x, y) => *x * *y,
            TensorRank::Cube(x, y, z) => {
                if *x == 0 || *y == 0 || *z == 0 {
                    assert(*x * *y * *z == 0) by (nonlinear_arith)
                        requires
                            *x == 0 || *y == 0 || *z == 0,
                    ;
                    0
                } else {
                    assert(*x * *y <= *x * *y * *z) by (nonlinear_arith)
                        requires
                            *x >= 1,
                            *y >= 1,
                            *z >= 1,
                    ;
                    *x * *y * *z
                }
            },
        }
    }
}

/// Where a tensor's data comes from: a borrowed slice or an owned copy.
pub struct TensorMeta<'s, T: Copy, const N: usize> {
    src: Option<&'s [T]>,
    per: Option<Vec<T>>,
}

impl<'s, T: Copy, const N: usize> TensorMeta<'s, T, N> {
    pub closed spec fn borrowed(&self) -> Option<Seq<T>> {
        match self.src {
            Some(s) => Some(s@),
            None => None,
        }
    }

    pub closed spec fn owned(&self) -> Option<Seq<T>> {
        match self.per {
            Some(v) => Some(v@),
            None => None,
        }
    }

    pub fn from_reference(src: &'s [T]) -> (r: Self)
        ensures
            r.borrowed() == Some(src@),
            r.owned() == None::<Seq<T>>,
    {
        TensorMeta { src: Some(src), per: None }
    }

    pub fn from_persist(src: [T; N]) -> (r: Self)
        ensures
            r.borrowed() == None::<Seq<T>>,
            r.owned() == Some(src@),
    {
        let v = slice_to_vec(src.as_slice());
        TensorMeta { src: None, per: Some(v) }
    }

    /// Which sources are filled: the borrowed one, the owned one.
    pub fn slots(&self) -> (r: (bool, bool))
        ensures
            r == (self.borrowed() is Some, self.owned() is Some),
    {
        (self.src.is_some(), self.per.is_some())
    }
}

/// Shape of a workgroup, in up to three dimensions.
#[derive(Clone, Copy, Debug, PartialEq, Eq, Structural)]
pub enum Workgroup {
    Single(u32),
    Duplet(u32, u32),
    Triplet(u32, u32, u32),
}

pub open spec fn invocations(w: Workgroup) -> int {
    match w {
        Workgroup::Single(x) => x as int,
        Workgroup::Duplet(x, y) => x * y,
        Workgroup::Triplet(x, y, z) => x * y * z,
    }
}

impl Workgroup {
    /// The number of invocations in one workgroup.
    pub fn collapse(&self) -> (r: u32)
        requires
            invocations(*self) <= u32::MAX,
        ensures
            r == invocations(*self),
    {
        match self {
            Workgroup::Single(x) => *x,
            Workgroup::Duplet(x, y) => *x * *y,
            Workgroup::Triplet(x, y, z) => {
                if *x == 0 || *y == 0 || *z == 0 {
                    assert(*x * *y * *z == 0) by (nonlinear_arith)
                        requires
                            *x == 0 || *y == 0 || *z == 0,
                    ;
                    0
                } else {
                    assert(*x * *y <= *x * *y * *z) by (nonlinear_arith)
                        requires
                            *x >= 1,
                            *y >= 1,
                            *z >= 1,
                    ;
                    *x * *y * *z
                }
            },
        }
    }
}

/// How many workgroups of `size` invocations cover `count` elements.
pub fn workgroups(count: u64, size: u32) -> (r: u64)
    requires
        size > 0,
    ensures
        r == (count as int + size as int - 1) / (size as int),
        (r as int) * (size as int) >= count as int,
        (r as int) * (size as int) < count as int + size as int,
{
    let q = count / size as u64;
    let rem = count % size as u64;
    proof {
        let c = count as int;
        let z = size as int;
        assert(c == z * (q as int) + rem as int && 0 <= rem < z) by (nonlinear_arith)
            requires
                z > 0,
                q as int == c / z,
                rem as int == c % z,
        ;
        assert(rem != 0 ==> (q as int) < u64::MAX) by (nonlinear_arith)
            requires
                c == z * (q as int) + rem as int,
                0 <= rem < z,
                c <= u64::MAX,
                q >= 0,
        ;
    }
    let r = if rem == 0 { q } else { q + 1 };
    proof {
        let c = count as int;
        let z = size as int;
        assert(r as int == (c + z - 1) / z && (r as int) * z >= c && (r as int) * z < c + z) by (nonlinear_arith)
            requires
                z > 0,
                c == z * (q as int) + rem as int,
                0 <= rem < z,
                r as int == if rem == 0 { q as int } else { q as int + 1 },
        ;
    }
    r
}

} // verus!
