//! Worker records: lifecycle category, fixed-point score, wire labels.
//!
//! Scores are carried as integers in thousandths of a point ("milli"), so a
//! score of 72.5 points is 72_500. The valid range of a score is 0..=100
//! points, i.e. 0..=100_000 milli.
use vstd::prelude::*;

verus! {

/// Fixed-point scale: milli-points per point.
pub const SCORE_SCALE: i64 = 1000;

/// Highest valid score, in milli-points (100 points).
pub const SCORE_MAX_MILLI: i64 = 100_000;

/// Scores at or above this are low utilization (LU), in milli-points.
pub const LU_THRESHOLD_MILLI: i64 = 70_000;

/// Scores at or above this (and below LU) are medium utilization (MU).
pub const MU_THRESHOLD_MILLI: i64 = 40_000;

/// Lifecycle category of a worker container.
#[derive(Clone, Copy, Debug, PartialEq, Eq, Structural)]
pub enum Category {
    Init,
    Lu,
    Mu,
    Hu,
    Sundown,
}

/// One worker as carried on the state channel: routable name, score,
/// lifecycle category.
#[derive(Clone, Debug)]
pub struct QueueItem {
    pub dns_name: Vec<u8>,
    pub score_milli: i64,
    pub category: Category,
}

/// The model of a worker record: name bytes, score in milli, category.
pub type ItemModel = (Seq<u8>, int, Category);

impl View for QueueItem {
    type V = ItemModel;

    open spec fn view(&self) -> ItemModel {
        (self.dns_name@, self.score_milli as int, self.category)
    }
}

impl QueueItem {
    /// A field-for-field copy of the record.
    pub fn duplicate(&self) -> (r: QueueItem)
        ensures
            r@ == self@,
    {
        QueueItem {
            dns_name: crate::cache::clone_bytes(&self.dns_name),
            score_milli: self.score_milli,
            category: self.category,
        }
    }
}

/// The wire label of a category, as a byte sequence.
pub open spec fn spec_category_label(c: Category) -> Seq<u8> {
    match c {
        Category::Init => seq![73u8, 78u8, 73u8, 84u8],
        Category::Lu => seq![76u8, 85u8],
        Category::Mu => seq![77u8, 85u8],
        Category::Hu => seq![72u8, 85u8],
        Category::Sundown => seq![83u8, 85u8, 78u8, 68u8, 79u8, 87u8, 78u8],
    }
}

/// Renders a category as its wire label: "INIT", "LU", "MU", "HU", "SUNDOWN".
pub fn category_label(c: Category) -> (r: Vec<u8>)
    ensures
        r@ == spec_category_label(c),
{
    let mut v: Vec<u8> = Vec::new();
    match c {
        Category::Init => {
            v.push(73);
            v.push(78);
            v.push(73);
            v.push(84);
        },
        Category::Lu => {
            v.push(76);
            v.push(85);
        },
        Category::Mu => {
            v.push(77);
            v.push(85);
        },
        Category::Hu => {
            v.push(72);
            v.push(85);
        },
        Category::Sundown => {
            v.push(83);
            v.push(85);
            v.push(78);
            v.push(68);
            v.push(79);
            v.push(87);
            v.push(78);
        },
    }
    proof {
        assert(v@ =~= spec_category_label(c));
    }
    v
}

/// Which category a score classifies as; INIT and SUNDOWN are never produced
/// by classification, only preserved by other components.
pub open spec fn spec_categorize(score_milli: int) -> Category {
    if score_milli >= LU_THRESHOLD_MILLI {
        Category::Lu
    } else if score_milli >= MU_THRESHOLD_MILLI {
        Category::Mu
    } else {
        Category::Hu
    }
}

/// Classifies a composite score: >= 70 points LU, >= 40 points MU, else HU.
pub fn categorize_utilization(score_milli: i64) -> (r: Category)
    ensures
        r == spec_categorize(score_milli as int),
{
    if score_milli >= LU_THRESHOLD_MILLI {
        Category::Lu
    } else if score_milli >= MU_THRESHOLD_MILLI {
        Category::Mu
    } else {
        Category::Hu
    }
}

/// Byte-wise equality of two byte vectors.
pub fn bytes_eq(a: &Vec<u8>, b: &Vec<u8>) -> (r: bool)
    ensures
        r == (a@ == b@),
{
    if a.len() != b.len() {
        proof {
            assert(a@ != b@);
        }
        return false;
    }
    let mut i: usize = 0;
    while i < a.len()
        invariant
            i <= a.len(),
            a.len() == b.len(),
            forall|j: int| 0 <= j < i ==> a@[j] == b@[j],
        decreases a.len() - i,
    {
        if a[i] != b[i] {
            return false;
        }
        i += 1;
    }
    proof {
        assert(a@ =~= b@);
    }
    true
}

} // verus!
