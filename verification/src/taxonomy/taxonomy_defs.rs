//! Generalization hierarchies for the categorical columns of the UCI Adult
//! census dataset.
use vstd::prelude::*;
use crate::taxonomy::categorical::CategoricalHierarchy;

verus! {

/// The shape of a hierarchy: each node's label and its children, in order.
pub ghost enum HierModel {
    Node(Seq<char>, Seq<HierModel>),
}

/// The shape of a hierarchy definition.
pub open spec fn hier_view(h: CategoricalHierarchy) -> HierModel
    decreases h, 0nat,
{
    HierModel::Node(h.col_name@, forest_view(h.children@, 0))
}

/// The shapes of `hs[i..]`.
pub open spec fn forest_view(hs: Seq<CategoricalHierarchy>, i: int) -> Seq<HierModel>
    decreases hs, hs.len() - i,
{
    if 0 <= i < hs.len() {
        seq![hier_view(hs[i])] + forest_view(hs, i + 1)
    } else {
        Seq::empty()
    }
}

/// A node with the given label and children.
pub open spec fn hnode(label: Seq<char>, children: Seq<HierModel>) -> HierModel {
    HierModel::Node(label, children)
}

/// A leaf with the given label.
pub open spec fn hleaf(label: Seq<char>) -> HierModel {
    HierModel::Node(label, Seq::empty())
}

/// The shapes of a list of hierarchies are theirs, in order.
pub proof fn lemma_forest_view(hs: Seq<CategoricalHierarchy>, i: int)
    requires
        0 <= i <= hs.len(),
    ensures
        forest_view(hs, i) == Seq::new((hs.len() - i) as nat, |j: int| hier_view(hs[i + j])),
    decreases hs.len() - i,
{
    if i < hs.len() {
        lemma_forest_view(hs, i + 1);
        assert(forest_view(hs, i) =~= Seq::new((hs.len() - i) as nat, |j: int| hier_view(hs[i + j])));
    } else {
        assert(forest_view(hs, i) =~= Seq::new((hs.len() - i) as nat, |j: int| hier_view(hs[i + j])));
    }
}

/// A node labelled `label` over the given children.
fn group(label: &str, children: Vec<CategoricalHierarchy>) -> (h: CategoricalHierarchy)
    ensures
        hier_view(h) == hnode(label@, Seq::new(children@.len(), |j: int| hier_view(children@[j]))),
{
    let h = CategoricalHierarchy::new(label).with_children(children);
    proof {
        lemma_forest_view(h.children@, 0);
        assert(forest_view(h.children@, 0) =~= Seq::new(children@.len(), |j: int| hier_view(children@[j])));
    }
    h
}

/// A node labelled `label` over leaves labelled `leaves`, in order.
fn group_of_leaves(label: &str, leaves: &[&str]) -> (h: CategoricalHierarchy)
    ensures
        hier_view(h) == hnode(label@, Seq::new(leaves@.len(), |j: int| hleaf(leaves@[j]@))),
{
    let mut children: Vec<CategoricalHierarchy> = Vec::new();
    for i in 0..leaves.len()
        invariant
            children@.len() == i,
            forall|j: int| 0 <= j < i ==> hier_view(#[trigger] children@[j]) == hleaf(leaves@[j]@),
    {
        let leaf = CategoricalHierarchy::new(leaves[i]);
        proof {
            lemma_forest_view(leaf.children@, 0);
            assert(forest_view(leaf.children@, 0) =~= Seq::<HierModel>::empty());
        }
        children.push(leaf);
    }
    let h = group(label, children);
    assert(Seq::new(children@.len(), |j: int| hier_view(children@[j])) =~= Seq::new(
        leaves@.len(),
        |j: int| hleaf(leaves@[j]@),
    ));
    h
}

/// The gender hierarchy: `*` over `Male` and `Female`.
pub open spec fn gender_tree() -> HierModel {
    hnode("*"@, seq![hleaf("Male"@), hleaf("Female"@)])
}

/// The gender hierarchy (see `gender_tree`).
pub fn gender_hierarchy() -> (h: CategoricalHierarchy)
    ensures
        hier_view(h) == gender_tree(),
{
    let h = group_of_leaves("*", &["Male", "Female"]);
    assert(Seq::new(2, |j: int| hleaf(["Male", "Female"]@[j]@)) =~= seq![hleaf("Male"@), hleaf("Female"@)]);
    h
}


/// The work-class hierarchy: employed people by sector.
pub open spec fn workclass_tree() -> HierModel {
    hnode(
        "*"@,
        seq![
            hnode(
                "Employed"@,
                seq![
                    hnode(
                        "Private-Sector"@,
                        seq![
                            hleaf("Private"@),
                        ],
                    ),
                    hnode(
                        "Self-Employed"@,
                        seq![
                            hleaf("Self-emp-not-inc"@),
                            hleaf("Self-emp-inc"@),
                        ],
                    ),
                    hnode(
                        "Government"@,
                        seq![
                            hleaf("Federal-gov"@),
                            hleaf("Local-gov"@),
                            hleaf("State-gov"@),
                        ],
                    ),
                ],
            ),
        ],
    )
}

/// The work-class hierarchy: employed people by sector (see `workclass_tree`).
pub fn workclass_hierarchy() -> (h: CategoricalHierarchy)
    ensures
        hier_view(h) == workclass_tree(),
{
    let n2 = group_of_leaves("Private-Sector", &["Private"]);
    assert(Seq::new(1, |j: int| hleaf(["Private"]@[j]@)) =~= seq![hleaf("Private"@)]);
    assert(hier_view(n2) == hnode(
        "Private-Sector"@,
        seq![
            hleaf("Private"@),
        ],
    ));
    let n3 = group_of_leaves("Self-Employed", &["Self-emp-not-inc", "Self-emp-inc"]);
    assert(Seq::new(2, |j: int| hleaf(["Self-emp-not-inc", "Self-emp-inc"]@[j]@)) =~= seq![hleaf("Self-emp-not-inc"@), hleaf("Self-emp-inc"@)]);
    assert(hier_view(n3) == hnode(
        "Self-Employed"@,
        seq![
            hleaf("Self-emp-not-inc"@),
            hleaf("Self-emp-inc"@),
        ],
    ));
    let n4 = group_of_leaves("Government", &["Federal-gov", "Local-gov", "State-gov"]);
    assert(Seq::new(3, |j: int| hleaf(["Federal-gov", "Local-gov", "State-gov"]@[j]@)) =~= seq![hleaf("Federal-gov"@), hleaf("Local-gov"@), hleaf("State-gov"@)]);
    assert(hier_view(n4) == hnode(
        "Government"@,
        seq![
            hleaf("Federal-gov"@),
            hleaf("Local-gov"@),
            hleaf("State-gov"@),
        ],
    ));
    let mut n1_children: Vec<CategoricalHierarchy> = Vec::new();
    n1_children.push(n2);
    n1_children.push(n3);
    n1_children.push(n4);
    let ghost n1_kids = n1_children@;
    let n1 = group("Employed", n1_children);
    assert(Seq::new(3, |j: int| hier_view(n1_kids[j])) =~= seq![hier_view(n2), hier_view(n3), hier_view(n4)]);
    assert(hier_view(n1) == hnode(
        "Employed"@,
        seq![
            hnode(
                "Private-Sector"@,
                seq![
                    hleaf("Private"@),
                ],
            ),
            hnode(
                "Self-Employed"@,
                seq![
                    hleaf("Self-emp-not-inc"@),
                    hleaf("Self-emp-inc"@),
                ],
            ),
            hnode(
                "Government"@,
                seq![
                    hleaf("Federal-gov"@),
                    hleaf("Local-gov"@),
                    hleaf("State-gov"@),
                ],
            ),
        ],
    ));
    let mut n0_children: Vec<CategoricalHierarchy> = Vec::new();
    n0_children.push(n1);
    let ghost n0_kids = n0_children@;
    let n0 = group("*", n0_children);
    assert(Seq::new(1, |j: int| hier_view(n0_kids[j])) =~= seq![hier_view(n1)]);
    assert(hier_view(n0) == hnode(
        "*"@,
        seq![
            hnode(
                "Employed"@,
                seq![
                    hnode(
                        "Private-Sector"@,
                        seq![
                            hleaf("Private"@),
                        ],
                    ),
                    hnode(
                        "Self-Employed"@,
                        seq![
                            hleaf("Self-emp-not-inc"@),
                            hleaf("Self-emp-inc"@),
                        ],
                    ),
                    hnode(
                        "Government"@,
                        seq![
                            hleaf("Federal-gov"@),
                            hleaf("Local-gov"@),
                            hleaf("State-gov"@),
                        ],
                    ),
                ],
            ),
        ],
    ));
    n0
}

/// The education hierarchy: pre-college, college and post-graduate levels.
pub open spec fn education_tree() -> HierModel {
    hnode(
        "*"@,
        seq![
            hnode(
                "Pre-College"@,
                seq![
                    hnode(
                        "Primary"@,
                        seq![
                            hleaf("Preschool"@),
                            hleaf("1st-4th"@),
                            hleaf("5th-6th"@),
                        ],
                    ),
                    hnode(
                        "Middle-School"@,
                        seq![
                            hleaf("7th-8th"@),
                            hleaf("9th"@),
                        ],
                    ),
                    hnode(
                        "High-School"@,
                        seq![
                            hleaf("10th"@),
                            hleaf("11th"@),
                            hleaf("12th"@),
                            hleaf("HS-grad"@),
                        ],
                    ),
                ],
            ),
            hnode(
                "College"@,
                seq![
                    hnode(
                        "Undergraduate"@,
                        seq![
                            hleaf("Some-college"@),
                            hleaf("Assoc-voc"@),
                            hleaf("Assoc-acdm"@),
                            hleaf("Bachelors"@),
                        ],
                    ),
                ],
            ),
            hnode(
                "Post-Graduate"@,
                seq![
                    hnode(
                        "Graduate"@,
                        seq![
                            hleaf("Masters"@),
                            hleaf("Prof-school"@),
                            hleaf("Doctorate"@),
                        ],
                    ),
                ],
            ),
        ],
    )
}

/// The education hierarchy: pre-college, college and post-graduate levels (see `education_tree`).
pub fn education_hierarchy() -> (h: CategoricalHierarchy)
    ensures
        hier_view(h) == education_tree(),
{
    let n2 = group_of_leaves("Primary", &["Preschool", "1st-4th", "5th-6th"]);
    assert(Seq::new(3, |j: int| hleaf(["Preschool", "1st-4th", "5th-6th"]@[j]@)) =~= seq![hleaf("Preschool"@), hleaf("1st-4th"@), hleaf("5th-6th"@)]);
    assert(hier_view(n2) == hnode(
        "Primary"@,
        seq![
            hleaf("Preschool"@),
            hleaf("1st-4th"@),
            hleaf("5th-6th"@),
        ],
    ));
    let n3 = group_of_leaves("Middle-School", &["7th-8th", "9th"]);
    assert(Seq::new(2, |j: int| hleaf(["7th-8th", "9th"]@[j]@)) =~= seq![hleaf("7th-8th"@), hleaf("9th"@)]);
    assert(hier_view(n3) == hnode(
        "Middle-School"@,
        seq![
            hleaf("7th-8th"@),
            hleaf("9th"@),
        ],
    ));
    let n4 = group_of_leaves("High-School", &["10th", "11th", "12th", "HS-grad"]);
    assert(Seq::new(4, |j: int| hleaf(["10th", "11th", "12th", "HS-grad"]@[j]@)) =~= seq![hleaf("10th"@), hleaf("11th"@), hleaf("12th"@), hleaf("HS-grad"@)]);
    assert(hier_view(n4) == hnode(
        "High-School"@,
        seq![
            hleaf("10th"@),
            hleaf("11th"@),
            hleaf("12th"@),
            hleaf("HS-grad"@),
        ],
    ));
    let mut n1_children: Vec<CategoricalHierarchy> = Vec::new();
    n1_children.push(n2);
    n1_children.push(n3);
    n1_children.push(n4);
    let ghost n1_kids = n1_children@;
    let n1 = group("Pre-College", n1_children);
    assert(Seq::new(3, |j: int| hier_view(n1_kids[j])) =~= seq![hier_view(n2), hier_view(n3), hier_view(n4)]);
    assert(hier_view(n1) == hnode(
        "Pre-College"@,
        seq![
            hnode(
                "Primary"@,
                seq![
                    hleaf("Preschool"@),
                    hleaf("1st-4th"@),
                    hleaf("5th-6th"@),
                ],
            ),
            hnode(
                "Middle-School"@,
                seq![
                    hleaf("7th-8th"@),
                    hleaf("9th"@),
                ],
            ),
            hnode(
                "High-School"@,
                seq![
                    hleaf("10th"@),
                    hleaf("11th"@),
                    hleaf("12th"@),
                    hleaf("HS-grad"@),
                ],
            ),
        ],
    ));
    let n6 = group_of_leaves("Undergraduate", &["Some-college", "Assoc-voc", "Assoc-acdm", "Bachelors"]);
    assert(Seq::new(4, |j: int| hleaf(["Some-college", "Assoc-voc", "Assoc-acdm", "Bachelors"]@[j]@)) =~= seq![hleaf("Some-college"@), hleaf("Assoc-voc"@), hleaf("Assoc-acdm"@), hleaf("Bachelors"@)]);
    assert(hier_view(n6) == hnode(
        "Undergraduate"@,
        seq![
            hleaf("Some-college"@),
            hleaf("Assoc-voc"@),
            hleaf("Assoc-acdm"@),
            hleaf("Bachelors"@),
        ],
    ));
    let mut n5_children: Vec<CategoricalHierarchy> = Vec::new();
    n5_children.push(n6);
    let ghost n5_kids = n5_children@;
    let n5 = group("College", n5_children);
    assert(Seq::new(1, |j: int| hier_view(n5_kids[j])) =~= seq![hier_view(n6)]);
    assert(hier_view(n5) == hnode(
        "College"@,
        seq![
            hnode(
                "Undergraduate"@,
                seq![
                    hleaf("Some-college"@),
                    hleaf("Assoc-voc"@),
                    hleaf("Assoc-acdm"@),
                    hleaf("Bachelors"@),
                ],
            ),
        ],
    ));
    let n8 = group_of_leaves("Graduate", &["Masters", "Prof-school", "Doctorate"]);
    assert(Seq::new(3, |j: int| hleaf(["Masters", "Prof-school", "Doctorate"]@[j]@)) =~= seq![hleaf("Masters"@), hleaf("Prof-school"@), hleaf("Doctorate"@)]);
    assert(hier_view(n8) == hnode(
        "Graduate"@,
        seq![
            hleaf("Masters"@),
            hleaf("Prof-school"@),
            hleaf("Doctorate"@),
        ],
    ));
    let mut n7_children: Vec<CategoricalHierarchy> = Vec::new();
    n7_children.push(n8);
    let ghost n7_kids = n7_children@;
    let n7 = group("Post-Graduate", n7_children);
    assert(Seq::new(1, |j: int| hier_view(n7_kids[j])) =~= seq![hier_view(n8)]);
    assert(hier_view(n7) == hnode(
        "Post-Graduate"@,
        seq![
            hnode(
                "Graduate"@,
                seq![
                    hleaf("Masters"@),
                    hleaf("Prof-school"@),
                    hleaf("Doctorate"@),
                ],
            ),
        ],
    ));
    let mut n0_children: Vec<CategoricalHierarchy> = Vec::new();
    n0_children.push(n1);
    n0_children.push(n5);
    n0_children.push(n7);
    let ghost n0_kids = n0_children@;
    let n0 = group("*", n0_children);
    assert(Seq::new(3, |j: int| hier_view(n0_kids[j])) =~= seq![hier_view(n1), hier_view(n5), hier_view(n7)]);
    assert(hier_view(n0) == hnode(
        "*"@,
        seq![
            hnode(
                "Pre-College"@,
                seq![
                    hnode(
                        "Primary"@,
                        seq![
                            hleaf("Preschool"@),
                            hleaf("1st-4th"@),
                            hleaf("5th-6th"@),
                        ],
                    ),
                    hnode(
                        "Middle-School"@,
                        seq![
                            hleaf("7th-8th"@),
                            hleaf("9th"@),
                        ],
                    ),
                    hnode(
                        "High-School"@,
                        seq![
                            hleaf("10th"@),
                            hleaf("11th"@),
                            hleaf("12th"@),
                            hleaf("HS-grad"@),
                        ],
                    ),
                ],
            ),
            hnode(
                "College"@,
                seq![
                    hnode(
                        "Undergraduate"@,
                        seq![
                            hleaf("Some-college"@),
                            hleaf("Assoc-voc"@),
                            hleaf("Assoc-acdm"@),
                            hleaf("Bachelors"@),
                        ],
                    ),
                ],
            ),
            hnode(
                "Post-Graduate"@,
                seq![
                    hnode(
                        "Graduate"@,
                        seq![
                            hleaf("Masters"@),
                            hleaf("Prof-school"@),
                            hleaf("Doctorate"@),
                        ],
                    ),
                ],
            ),
        ],
    ));
    n0
}

/// The marital-status hierarchy: married, previously married, single.
pub open spec fn marital_status_tree() -> HierModel {
    hnode(
        "*"@,
        seq![
            hnode(
                "Married"@,
                seq![
                    hleaf("Married-civ-spouse"@),
                    hleaf("Married-AF-spouse"@),
                    hleaf("Married-spouse-absent"@),
                ],
            ),
            hnode(
                "Previously-Married"@,
                seq![
                    hleaf("Divorced"@),
                    hleaf("Separated"@),
                    hleaf("Widowed"@),
                ],
            ),
            hnode(
                "Single"@,
                seq![
                    hleaf("Never-married"@),
                ],
            ),
        ],
    )
}

/// The marital-status hierarchy: married, previously married, single (see `marital_status_tree`).
pub fn marital_status_hierarchy() -> (h: CategoricalHierarchy)
    ensures
        hier_view(h) == marital_status_tree(),
{
    let n1 = group_of_leaves("Married", &["Married-civ-spouse", "Married-AF-spouse", "Married-spouse-absent"]);
    assert(Seq::new(3, |j: int| hleaf(["Married-civ-spouse", "Married-AF-spouse", "Married-spouse-absent"]@[j]@)) =~= seq![hleaf("Married-civ-spouse"@), hleaf("Married-AF-spouse"@), hleaf("Married-spouse-absent"@)]);
    assert(hier_view(n1) == hnode(
        "Married"@,
        seq![
            hleaf("Married-civ-spouse"@),
            hleaf("Married-AF-spouse"@),
            hleaf("Married-spouse-absent"@),
        ],
    ));
    let n2 = group_of_leaves("Previously-Married", &["Divorced", "Separated", "Widowed"]);
    assert(Seq::new(3, |j: int| hleaf(["Divorced", "Separated", "Widowed"]@[j]@)) =~= seq![hleaf("Divorced"@), hleaf("Separated"@), hleaf("Widowed"@)]);
    assert(hier_view(n2) == hnode(
        "Previously-Married"@,
        seq![
            hleaf("Divorced"@),
            hleaf("Separated"@),
            hleaf("Widowed"@),
        ],
    ));
    let n3 = group_of_leaves("Single", &["Never-married"]);
    assert(Seq::new(1, |j: int| hleaf(["Never-married"]@[j]@)) =~= seq![hleaf("Never-married"@)]);
    assert(hier_view(n3) == hnode(
        "Single"@,
        seq![
            hleaf("Never-married"@),
        ],
    ));
    let mut n0_children: Vec<CategoricalHierarchy> = Vec::new();
    n0_children.push(n1);
    n0_children.push(n2);
    n0_children.push(n3);
    let ghost n0_kids = n0_children@;
    let n0 = group("*", n0_children);
    assert(Seq::new(3, |j: int| hier_view(n0_kids[j])) =~= seq![hier_view(n1), hier_view(n2), hier_view(n3)]);
    assert(hier_view(n0) == hnode(
        "*"@,
        seq![
            hnode(
                "Married"@,
                seq![
                    hleaf("Married-civ-spouse"@),
                    hleaf("Married-AF-spouse"@),
                    hleaf("Married-spouse-absent"@),
                ],
            ),
            hnode(
                "Previously-Married"@,
                seq![
                    hleaf("Divorced"@),
                    hleaf("Separated"@),
                    hleaf("Widowed"@),
                ],
            ),
            hnode(
                "Single"@,
                seq![
                    hleaf("Never-married"@),
                ],
            ),
        ],
    ));
    n0
}

/// The occupation hierarchy: white-collar, blue-collar, service and military work, and unknown.
pub open spec fn occupation_tree() -> HierModel {
    hnode(
        "*"@,
        seq![
            hnode(
                "White-Collar"@,
                seq![
                    hleaf("Exec-managerial"@),
                    hleaf("Prof-specialty"@),
                    hleaf("Adm-clerical"@),
                    hleaf("Sales"@),
                    hleaf("Tech-support"@),
                ],
            ),
            hnode(
                "Blue-Collar"@,
                seq![
                    hleaf("Craft-repair"@),
                    hleaf("Machine-op-inspct"@),
                    hleaf("Handlers-cleaners"@),
                    hleaf("Transport-moving"@),
                    hleaf("Farming-fishing"@),
                ],
            ),
            hnode(
                "Service"@,
                seq![
                    hleaf("Other-service"@),
                    hleaf("Priv-house-serv"@),
                    hleaf("Protective-serv"@),
                ],
            ),
            hnode(
                "Military"@,
                seq![
                    hleaf("Armed-Forces"@),
                ],
            ),
            hnode(
                "Unknown"@,
                seq![
                    hleaf("?"@),
                ],
            ),
        ],
    )
}

/// The occupation hierarchy: white-collar, blue-collar, service and military work, and unknown (see `occupation_tree`).
pub fn occupation_hierarchy() -> (h: CategoricalHierarchy)
    ensures
        hier_view(h) == occupation_tree(),
{
    let n1 = group_of_leaves("White-Collar", &["Exec-managerial", "Prof-specialty", "Adm-clerical", "Sales", "Tech-support"]);
    assert(Seq::new(5, |j: int| hleaf(["Exec-managerial", "Prof-specialty", "Adm-clerical", "Sales", "Tech-support"]@[j]@)) =~= seq![hleaf("Exec-managerial"@), hleaf("Prof-specialty"@), hleaf("Adm-clerical"@), hleaf("Sales"@), hleaf("Tech-support"@)]);
    assert(hier_view(n1) == hnode(
        "White-Collar"@,
        seq![
            hleaf("Exec-managerial"@),
            hleaf("Prof-specialty"@),
            hleaf("Adm-clerical"@),
            hleaf("Sales"@),
            hleaf("Tech-support"@),
        ],
    ));
    let n2 = group_of_leaves("Blue-Collar", &["Craft-repair", "Machine-op-inspct", "Handlers-cleaners", "Transport-moving", "Farming-fishing"]);
    assert(Seq::new(5, |j: int| hleaf(["Craft-repair", "Machine-op-inspct", "Handlers-cleaners", "Transport-moving", "Farming-fishing"]@[j]@)) =~= seq![hleaf("Craft-repair"@), hleaf("Machine-op-inspct"@), hleaf("Handlers-cleaners"@), hleaf("Transport-moving"@), hleaf("Farming-fishing"@)]);
    assert(hier_view(n2) == hnode(
        "Blue-Collar"@,
        seq![
            hleaf("Craft-repair"@),
            hleaf("Machine-op-inspct"@),
            hleaf("Handlers-cleaners"@),
            hleaf("Transport-moving"@),
            hleaf("Farming-fishing"@),
        ],
    ));
    let n3 = group_of_leaves("Service", &["Other-service", "Priv-house-serv", "Protective-serv"]);
    assert(Seq::new(3, |j: int| hleaf(["Other-service", "Priv-house-serv", "Protective-serv"]@[j]@)) =~= seq![hleaf("Other-service"@), hleaf("Priv-house-serv"@), hleaf("Protective-serv"@)]);
    assert(hier_view(n3) == hnode(
        "Service"@,
        seq![
            hleaf("Other-service"@),
            hleaf("Priv-house-serv"@),
            hleaf("Protective-serv"@),
        ],
    ));
    let n4 = group_of_leaves("Military", &["Armed-Forces"]);
    assert(Seq::new(1, |j: int| hleaf(["Armed-Forces"]@[j]@)) =~= seq![hleaf("Armed-Forces"@)]);
    assert(hier_view(n4) == hnode(
        "Military"@,
        seq![
            hleaf("Armed-Forces"@),
        ],
    ));
    let n5 = group_of_leaves("Unknown", &["?"]);
    assert(Seq::new(1, |j: int| hleaf(["?"]@[j]@)) =~= seq![hleaf("?"@)]);
    assert(hier_view(n5) == hnode(
        "Unknown"@,
        seq![
            hleaf("?"@),
        ],
    ));
    let mut n0_children: Vec<CategoricalHierarchy> = Vec::new();
    n0_children.push(n1);
    n0_children.push(n2);
    n0_children.push(n3);
    n0_children.push(n4);
    n0_children.push(n5);
    let ghost n0_kids = n0_children@;
    let n0 = group("*", n0_children);
    assert(Seq::new(5, |j: int| hier_view(n0_kids[j])) =~= seq![hier_view(n1), hier_view(n2), hier_view(n3), hier_view(n4), hier_view(n5)]);
    assert(hier_view(n0) == hnode(
        "*"@,
        seq![
            hnode(
                "White-Collar"@,
                seq![
                    hleaf("Exec-managerial"@),
                    hleaf("Prof-specialty"@),
                    hleaf("Adm-clerical"@),
                    hleaf("Sales"@),
                    hleaf("Tech-support"@),
                ],
            ),
            hnode(
                "Blue-Collar"@,
                seq![
                    hleaf("Craft-repair"@),
                    hleaf("Machine-op-inspct"@),
                    hleaf("Handlers-cleaners"@),
                    hleaf("Transport-moving"@),
                    hleaf("Farming-fishing"@),
                ],
            ),
            hnode(
                "Service"@,
                seq![
                    hleaf("Other-service"@),
                    hleaf("Priv-house-serv"@),
                    hleaf("Protective-serv"@),
                ],
            ),
            hnode(
                "Military"@,
                seq![
                    hleaf("Armed-Forces"@),
                ],
            ),
            hnode(
                "Unknown"@,
                seq![
                    hleaf("?"@),
                ],
            ),
        ],
    ));
    n0
}

/// The relationship hierarchy: spouse, child, unrelated.
pub open spec fn relationship_tree() -> HierModel {
    hnode(
        "*"@,
        seq![
            hnode(
                "Spouse"@,
                seq![
                    hleaf("Husband"@),
                    hleaf("Wife"@),
                ],
            ),
            hnode(
                "Child"@,
                seq![
                    hleaf("Own-child"@),
                ],
            ),
            hnode(
                "Unrelated"@,
                seq![
                    hleaf("Not-in-family"@),
                    hleaf("Other-relative"@),
                    hleaf("Unmarried"@),
                ],
            ),
        ],
    )
}

/// The relationship hierarchy: spouse, child, unrelated (see `relationship_tree`).
pub fn relationship_hierarchy() -> (h: CategoricalHierarchy)
    ensures
        hier_view(h) == relationship_tree(),
{
    let n1 = group_of_leaves("Spouse", &["Husband", "Wife"]);
    assert(Seq::new(2, |j: int| hleaf(["Husband", "Wife"]@[j]@)) =~= seq![hleaf("Husband"@), hleaf("Wife"@)]);
    assert(hier_view(n1) == hnode(
        "Spouse"@,
        seq![
            hleaf("Husband"@),
            hleaf("Wife"@),
        ],
    ));
    let n2 = group_of_leaves("Child", &["Own-child"]);
    assert(Seq::new(1, |j: int| hleaf(["Own-child"]@[j]@)) =~= seq![hleaf("Own-child"@)]);
    assert(hier_view(n2) == hnode(
        "Child"@,
        seq![
            hleaf("Own-child"@),
        ],
    ));
    let n3 = group_of_leaves("Unrelated", &["Not-in-family", "Other-relative", "Unmarried"]);
    assert(Seq::new(3, |j: int| hleaf(["Not-in-family", "Other-relative", "Unmarried"]@[j]@)) =~= seq![hleaf("Not-in-family"@), hleaf("Other-relative"@), hleaf("Unmarried"@)]);
    assert(hier_view(n3) == hnode(
        "Unrelated"@,
        seq![
            hleaf("Not-in-family"@),
            hleaf("Other-relative"@),
            hleaf("Unmarried"@),
        ],
    ));
    let mut n0_children: Vec<CategoricalHierarchy> = Vec::new();
    n0_children.push(n1);
    n0_children.push(n2);
    n0_children.push(n3);
    let ghost n0_kids = n0_children@;
    let n0 = group("*", n0_children);
    assert(Seq::new(3, |j: int| hier_view(n0_kids[j])) =~= seq![hier_view(n1), hier_view(n2), hier_view(n3)]);
    assert(hier_view(n0) == hnode(
        "*"@,
        seq![
            hnode(
                "Spouse"@,
                seq![
                    hleaf("Husband"@),
                    hleaf("Wife"@),
                ],
            ),
            hnode(
                "Child"@,
                seq![
                    hleaf("Own-child"@),
                ],
            ),
            hnode(
                "Unrelated"@,
                seq![
                    hleaf("Not-in-family"@),
                    hleaf("Other-relative"@),
                    hleaf("Unmarried"@),
                ],
            ),
        ],
    ));
    n0
}

/// The race hierarchy: `White` (over `White` itself) and the others.
pub open spec fn race_tree() -> HierModel {
    hnode(
        "*"@,
        seq![
            hnode(
                "White"@,
                seq![
                    hleaf("White"@),
                ],
            ),
            hnode(
                "Non-White"@,
                seq![
                    hleaf("Black"@),
                    hleaf("Asian-Pac-Islander"@),
                    hleaf("Amer-Indian-Eskimo"@),
                    hleaf("Other"@),
                ],
            ),
        ],
    )
}

/// The race hierarchy: `White` (over `White` itself) and the others (see `race_tree`).
pub fn race_hierarchy() -> (h: CategoricalHierarchy)
    ensures
        hier_view(h) == race_tree(),
{
    let n1 = group_of_leaves("White", &["White"]);
    assert(Seq::new(1, |j: int| hleaf(["White"]@[j]@)) =~= seq![hleaf("White"@)]);
    assert(hier_view(n1) == hnode(
        "White"@,
        seq![
            hleaf("White"@),
        ],
    ));
    let n2 = group_of_leaves("Non-White", &["Black", "Asian-Pac-Islander", "Amer-Indian-Eskimo", "Other"]);
    assert(Seq::new(4, |j: int| hleaf(["Black", "Asian-Pac-Islander", "Amer-Indian-Eskimo", "Other"]@[j]@)) =~= seq![hleaf("Black"@), hleaf("Asian-Pac-Islander"@), hleaf("Amer-Indian-Eskimo"@), hleaf("Other"@)]);
    assert(hier_view(n2) == hnode(
        "Non-White"@,
        seq![
            hleaf("Black"@),
            hleaf("Asian-Pac-Islander"@),
            hleaf("Amer-Indian-Eskimo"@),
            hleaf("Other"@),
        ],
    ));
    let mut n0_children: Vec<CategoricalHierarchy> = Vec::new();
    n0_children.push(n1);
    n0_children.push(n2);
    let ghost n0_kids = n0_children@;
    let n0 = group("*", n0_children);
    assert(Seq::new(2, |j: int| hier_view(n0_kids[j])) =~= seq![hier_view(n1), hier_view(n2)]);
    assert(hier_view(n0) == hnode(
        "*"@,
        seq![
            hnode(
                "White"@,
                seq![
                    hleaf("White"@),
                ],
            ),
            hnode(
                "Non-White"@,
                seq![
                    hleaf("Black"@),
                    hleaf("Asian-Pac-Islander"@),
                    hleaf("Amer-Indian-Eskimo"@),
                    hleaf("Other"@),
                ],
            ),
        ],
    ));
    n0
}

/// The native-country hierarchy: countries by region and continent, and unknown.
pub open spec fn native_country_tree() -> HierModel {
    hnode(
        "*"@,
        seq![
            hnode(
                "Americas"@,
                seq![
                    hnode(
                        "North-America"@,
                        seq![
                            hleaf("United-States"@),
                            hleaf("Canada"@),
                        ],
                    ),
                    hnode(
                        "Central-America"@,
                        seq![
                            hleaf("Mexico"@),
                            hleaf("Guatemala"@),
                            hleaf("Honduras"@),
                            hleaf("El-Salvador"@),
                            hleaf("Nicaragua"@),
                        ],
                    ),
                    hnode(
                        "Caribbean"@,
                        seq![
                            hleaf("Cuba"@),
                            hleaf("Jamaica"@),
                            hleaf("Haiti"@),
                            hleaf("Dominican-Republic"@),
                            hleaf("Puerto-Rico"@),
                            hleaf("Trinadad&Tobago"@),
                            hleaf("Outlying-US"@),
                        ],
                    ),
                    hnode(
                        "South-America"@,
                        seq![
                            hleaf("Columbia"@),
                            hleaf("Peru"@),
                            hleaf("Ecuador"@),
                        ],
                    ),
                ],
            ),
            hnode(
                "Europe"@,
                seq![
                    hnode(
                        "Western-Europe"@,
                        seq![
                            hleaf("Germany"@),
                            hleaf("England"@),
                            hleaf("Italy"@),
                            hleaf("France"@),
                            hleaf("Portugal"@),
                            hleaf("Greece"@),
                            hleaf("Ireland"@),
                            hleaf("Scotland"@),
                            hleaf("Holand-Netherlands"@),
                        ],
                    ),
                    hnode(
                        "Eastern-Europe"@,
                        seq![
                            hleaf("Poland"@),
                            hleaf("Yugoslavia"@),
                            hleaf("Hungary"@),
                        ],
                    ),
                ],
            ),
            hnode(
                "Asia"@,
                seq![
                    hnode(
                        "East-Asia"@,
                        seq![
                            hleaf("China"@),
                            hleaf("Japan"@),
                            hleaf("Taiwan"@),
                            hleaf("Hong"@),
                        ],
                    ),
                    hnode(
                        "South-Asia"@,
                        seq![
                            hleaf("India"@),
                        ],
                    ),
                    hnode(
                        "SE-Asia"@,
                        seq![
                            hleaf("Philippines"@),
                            hleaf("Vietnam"@),
                            hleaf("Cambodia"@),
                            hleaf("Laos"@),
                            hleaf("Thailand"@),
                        ],
                    ),
                    hnode(
                        "Middle-East"@,
                        seq![
                            hleaf("Iran"@),
                        ],
                    ),
                ],
            ),
            hnode(
                "Other"@,
                seq![
                    hleaf("South"@),
                ],
            ),
            hnode(
                "Unknown"@,
                seq![
                    hleaf("?"@),
                ],
            ),
        ],
    )
}

/// The native-country hierarchy: countries by region and continent, and unknown (see `native_country_tree`).
pub fn native_country_hierarchy() -> (h: CategoricalHierarchy)
    ensures
        hier_view(h) == native_country_tree(),
{
    let n2 = group_of_leaves("North-America", &["United-States", "Canada"]);
    assert(Seq::new(2, |j: int| hleaf(["United-States", "Canada"]@[j]@)) =~= seq![hleaf("United-States"@), hleaf("Canada"@)]);
    assert(hier_view(n2) == hnode(
        "North-America"@,
        seq![
            hleaf("United-States"@),
            hleaf("Canada"@),
        ],
    ));
    let n3 = group_of_leaves("Central-America", &["Mexico", "Guatemala", "Honduras", "El-Salvador", "Nicaragua"]);
    assert(Seq::new(5, |j: int| hleaf(["Mexico", "Guatemala", "Honduras", "El-Salvador", "Nicaragua"]@[j]@)) =~= seq![hleaf("Mexico"@), hleaf("Guatemala"@), hleaf("Honduras"@), hleaf("El-Salvador"@), hleaf("Nicaragua"@)]);
    assert(hier_view(n3) == hnode(
        "Central-America"@,
        seq![
            hleaf("Mexico"@),
            hleaf("Guatemala"@),
            hleaf("Honduras"@),
            hleaf("El-Salvador"@),
            hleaf("Nicaragua"@),
        ],
    ));
    let n4 = group_of_leaves("Caribbean", &["Cuba", "Jamaica", "Haiti", "Dominican-Republic", "Puerto-Rico", "Trinadad&Tobago", "Outlying-US"]);
    assert(Seq::new(7, |j: int| hleaf(["Cuba", "Jamaica", "Haiti", "Dominican-Republic", "Puerto-Rico", "Trinadad&Tobago", "Outlying-US"]@[j]@)) =~= seq![hleaf("Cuba"@), hleaf("Jamaica"@), hleaf("Haiti"@), hleaf("Dominican-Republic"@), hleaf("Puerto-Rico"@), hleaf("Trinadad&Tobago"@), hleaf("Outlying-US"@)]);
    assert(hier_view(n4) == hnode(
        "Caribbean"@,
        seq![
            hleaf("Cuba"@),
            hleaf("Jamaica"@),
            hleaf("Haiti"@),
            hleaf("Dominican-Republic"@),
            hleaf("Puerto-Rico"@),
            hleaf("Trinadad&Tobago"@),
            hleaf("Outlying-US"@),
        ],
    ));
    let n5 = group_of_leaves("South-America", &["Columbia", "Peru", "Ecuador"]);
    assert(Seq::new(3, |j: int| hleaf(["Columbia", "Peru", "Ecuador"]@[j]@)) =~= seq![hleaf("Columbia"@), hleaf("Peru"@), hleaf("Ecuador"@)]);
    assert(hier_view(n5) == hnode(
        "South-America"@,
        seq![
            hleaf("Columbia"@),
            hleaf("Peru"@),
            hleaf("Ecuador"@),
        ],
    ));
    let mut n1_children: Vec<CategoricalHierarchy> = Vec::new();
    n1_children.push(n2);
    n1_children.push(n3);
    n1_children.push(n4);
    n1_children.push(n5);
    let ghost n1_kids = n1_children@;
    let n1 = group("Americas", n1_children);
    assert(Seq::new(4, |j: int| hier_view(n1_kids[j])) =~= seq![hier_view(n2), hier_view(n3), hier_view(n4), hier_view(n5)]);
    assert(hier_view(n1) == hnode(
        "Americas"@,
        seq![
            hnode(
                "North-America"@,
                seq![
                    hleaf("United-States"@),
                    hleaf("Canada"@),
                ],
            ),
            hnode(
                "Central-America"@,
                seq![
                    hleaf("Mexico"@),
                    hleaf("Guatemala"@),
                    hleaf("Honduras"@),
                    hleaf("El-Salvador"@),
                    hleaf("Nicaragua"@),
                ],
            ),
            hnode(
                "Caribbean"@,
                seq![
                    hleaf("Cuba"@),
                    hleaf("Jamaica"@),
                    hleaf("Haiti"@),
                    hleaf("Dominican-Republic"@),
                    hleaf("Puerto-Rico"@),
                    hleaf("Trinadad&Tobago"@),
                    hleaf("Outlying-US"@),
                ],
            ),
            hnode(
                "South-America"@,
                seq![
                    hleaf("Columbia"@),
                    hleaf("Peru"@),
                    hleaf("Ecuador"@),
                ],
            ),
        ],
    ));
    let n7 = group_of_leaves("Western-Europe", &["Germany", "England", "Italy", "France", "Portugal", "Greece", "Ireland", "Scotland", "Holand-Netherlands"]);
    assert(Seq::new(9, |j: int| hleaf(["Germany", "England", "Italy", "France", "Portugal", "Greece", "Ireland", "Scotland", "Holand-Netherlands"]@[j]@)) =~= seq![hleaf("Germany"@), hleaf("England"@), hleaf("Italy"@), hleaf("France"@), hleaf("Portugal"@), hleaf("Greece"@), hleaf("Ireland"@), hleaf("Scotland"@), hleaf("Holand-Netherlands"@)]);
    assert(hier_view(n7) == hnode(
        "Western-Europe"@,
        seq![
            hleaf("Germany"@),
            hleaf("England"@),
            hleaf("Italy"@),
            hleaf("France"@),
            hleaf("Portugal"@),
            hleaf("Greece"@),
            hleaf("Ireland"@),
            hleaf("Scotland"@),
            hleaf("Holand-Netherlands"@),
        ],
    ));
    let n8 = group_of_leaves("Eastern-Europe", &["Poland", "Yugoslavia", "Hungary"]);
    assert(Seq::new(3, |j: int| hleaf(["Poland", "Yugoslavia", "Hungary"]@[j]@)) =~= seq![hleaf("Poland"@), hleaf("Yugoslavia"@), hleaf("Hungary"@)]);
    assert(hier_view(n8) == hnode(
        "Eastern-Europe"@,
        seq![
            hleaf("Poland"@),
            hleaf("Yugoslavia"@),
            hleaf("Hungary"@),
        ],
    ));
    let mut n6_children: Vec<CategoricalHierarchy> = Vec::new();
    n6_children.push(n7);
    n6_children.push(n8);
    let ghost n6_kids = n6_children@;
    let n6 = group("Europe", n6_children);
    assert(Seq::new(2, |j: int| hier_view(n6_kids[j])) =~= seq![hier_view(n7), hier_view(n8)]);
    assert(hier_view(n6) == hnode(
        "Europe"@,
        seq![
            hnode(
                "Western-Europe"@,
                seq![
                    hleaf("Germany"@),
                    hleaf("England"@),
                    hleaf("Italy"@),
                    hleaf("France"@),
                    hleaf("Portugal"@),
                    hleaf("Greece"@),
                    hleaf("Ireland"@),
                    hleaf("Scotland"@),
                    hleaf("Holand-Netherlands"@),
                ],
            ),
            hnode(
                "Eastern-Europe"@,
                seq![
                    hleaf("Poland"@),
                    hleaf("Yugoslavia"@),
                    hleaf("Hungary"@),
                ],
            ),
        ],
    ));
    let n10 = group_of_leaves("East-Asia", &["China", "Japan", "Taiwan", "Hong"]);
    assert(Seq::new(4, |j: int| hleaf(["China", "Japan", "Taiwan", "Hong"]@[j]@)) =~= seq![hleaf("China"@), hleaf("Japan"@), hleaf("Taiwan"@), hleaf("Hong"@)]);
    assert(hier_view(n10) == hnode(
        "East-Asia"@,
        seq![
            hleaf("China"@),
            hleaf("Japan"@),
            hleaf("Taiwan"@),
            hleaf("Hong"@),
        ],
    ));
    let n11 = group_of_leaves("South-Asia", &["India"]);
    assert(Seq::new(1, |j: int| hleaf(["India"]@[j]@)) =~= seq![hleaf("India"@)]);
    assert(hier_view(n11) == hnode(
        "South-Asia"@,
        seq![
            hleaf("India"@),
        ],
    ));
    let n12 = group_of_leaves("SE-Asia", &["Philippines", "Vietnam", "Cambodia", "Laos", "Thailand"]);
    assert(Seq::new(5, |j: int| hleaf(["Philippines", "Vietnam", "Cambodia", "Laos", "Thailand"]@[j]@)) =~= seq![hleaf("Philippines"@), hleaf("Vietnam"@), hleaf("Cambodia"@), hleaf("Laos"@), hleaf("Thailand"@)]);
    assert(hier_view(n12) == hnode(
        "SE-Asia"@,
        seq![
            hleaf("Philippines"@),
            hleaf("Vietnam"@),
            hleaf("Cambodia"@),
            hleaf("Laos"@),
            hleaf("Thailand"@),
        ],
    ));
    let n13 = group_of_leaves("Middle-East", &["Iran"]);
    assert(Seq::new(1, |j: int| hleaf(["Iran"]@[j]@)) =~= seq![hleaf("Iran"@)]);
    assert(hier_view(n13) == hnode(
        "Middle-East"@,
        seq![
            hleaf("Iran"@),
        ],
    ));
    let mut n9_children: Vec<CategoricalHierarchy> = Vec::new();
    n9_children.push(n10);
    n9_children.push(n11);
    n9_children.push(n12);
    n9_children.push(n13);
    let ghost n9_kids = n9_children@;
    let n9 = group("Asia", n9_children);
    assert(Seq::new(4, |j: int| hier_view(n9_kids[j])) =~= seq![hier_view(n10), hier_view(n11), hier_view(n12), hier_view(n13)]);
    assert(hier_view(n9) == hnode(
        "Asia"@,
        seq![
            hnode(
                "East-Asia"@,
                seq![
                    hleaf("China"@),
                    hleaf("Japan"@),
                    hleaf("Taiwan"@),
                    hleaf("Hong"@),
                ],
            ),
            hnode(
                "South-Asia"@,
                seq![
                    hleaf("India"@),
                ],
            ),
            hnode(
                "SE-Asia"@,
                seq![
                    hleaf("Philippines"@),
                    hleaf("Vietnam"@),
                    hleaf("Cambodia"@),
                    hleaf("Laos"@),
                    hleaf("Thailand"@),
                ],
            ),
            hnode(
                "Middle-East"@,
                seq![
                    hleaf("Iran"@),
                ],
            ),
        ],
    ));
    let n14 = group_of_leaves("Other", &["South"]);
    assert(Seq::new(1, |j: int| hleaf(["South"]@[j]@)) =~= seq![hleaf("South"@)]);
    assert(hier_view(n14) == hnode(
        "Other"@,
        seq![
            hleaf("South"@),
        ],
    ));
    let n15 = group_of_leaves("Unknown", &["?"]);
    assert(Seq::new(1, |j: int| hleaf(["?"]@[j]@)) =~= seq![hleaf("?"@)]);
    assert(hier_view(n15) == hnode(
        "Unknown"@,
        seq![
            hleaf("?"@),
        ],
    ));
    let mut n0_children: Vec<CategoricalHierarchy> = Vec::new();
    n0_children.push(n1);
    n0_children.push(n6);
    n0_children.push(n9);
    n0_children.push(n14);
    n0_children.push(n15);
    let ghost n0_kids = n0_children@;
    let n0 = group("*", n0_children);
    assert(Seq::new(5, |j: int| hier_view(n0_kids[j])) =~= seq![hier_view(n1), hier_view(n6), hier_view(n9), hier_view(n14), hier_view(n15)]);
    assert(hier_view(n0) == hnode(
        "*"@,
        seq![
            hnode(
                "Americas"@,
                seq![
                    hnode(
                        "North-America"@,
                        seq![
                            hleaf("United-States"@),
                            hleaf("Canada"@),
                        ],
                    ),
                    hnode(
                        "Central-America"@,
                        seq![
                            hleaf("Mexico"@),
                            hleaf("Guatemala"@),
                            hleaf("Honduras"@),
                            hleaf("El-Salvador"@),
                            hleaf("Nicaragua"@),
                        ],
                    ),
                    hnode(
                        "Caribbean"@,
                        seq![
                            hleaf("Cuba"@),
                            hleaf("Jamaica"@),
                            hleaf("Haiti"@),
                            hleaf("Dominican-Republic"@),
                            hleaf("Puerto-Rico"@),
                            hleaf("Trinadad&Tobago"@),
                            hleaf("Outlying-US"@),
                        ],
                    ),
                    hnode(
                        "South-America"@,
                        seq![
                            hleaf("Columbia"@),
                            hleaf("Peru"@),
                            hleaf("Ecuador"@),
                        ],
                    ),
                ],
            ),
            hnode(
                "Europe"@,
                seq![
                    hnode(
                        "Western-Europe"@,
                        seq![
                            hleaf("Germany"@),
                            hleaf("England"@),
                            hleaf("Italy"@),
                            hleaf("France"@),
                            hleaf("Portugal"@),
                            hleaf("Greece"@),
                            hleaf("Ireland"@),
                            hleaf("Scotland"@),
                            hleaf("Holand-Netherlands"@),
                        ],
                    ),
                    hnode(
                        "Eastern-Europe"@,
                        seq![
                            hleaf("Poland"@),
                            hleaf("Yugoslavia"@),
                            hleaf("Hungary"@),
                        ],
                    ),
                ],
            ),
            hnode(
                "Asia"@,
                seq![
                    hnode(
                        "East-Asia"@,
                        seq![
                            hleaf("China"@),
                            hleaf("Japan"@),
                            hleaf("Taiwan"@),
                            hleaf("Hong"@),
                        ],
                    ),
                    hnode(
                        "South-Asia"@,
                        seq![
                            hleaf("India"@),
                        ],
                    ),
                    hnode(
                        "SE-Asia"@,
                        seq![
                            hleaf("Philippines"@),
                            hleaf("Vietnam"@),
                            hleaf("Cambodia"@),
                            hleaf("Laos"@),
                            hleaf("Thailand"@),
                        ],
                    ),
                    hnode(
                        "Middle-East"@,
                        seq![
                            hleaf("Iran"@),
                        ],
                    ),
                ],
            ),
            hnode(
                "Other"@,
                seq![
                    hleaf("South"@),
                ],
            ),
            hnode(
                "Unknown"@,
                seq![
                    hleaf("?"@),
                ],
            ),
        ],
    ));
    n0
}


} // verus!
