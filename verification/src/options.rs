use vstd::prelude::*;

use crate::text::str_eq;

verus! {

/// What a host type allows through the index operator.
#[derive(Clone, Debug, Default, PartialEq, Eq)]
pub struct HostIndexCapabilityInfo {
    pub readable: bool,
    pub writable: bool,
    pub addable: bool,
    pub removable: bool,
    pub key_type: Option<String>,
    pub value_type: Option<String>,
}

/// The mathematical value of a `HostIndexCapabilityInfo`.
pub struct CapabilityModel {
    pub readable: bool,
    pub writable: bool,
    pub addable: bool,
    pub removable: bool,
    pub key_type: Option<Seq<char>>,
    pub value_type: Option<Seq<char>>,
}

pub open spec fn opt_str_model(s: Option<String>) -> Option<Seq<char>> {
    match s {
        Some(s) => Some(s@),
        None => None,
    }
}

impl View for HostIndexCapabilityInfo {
    type V = CapabilityModel;

    open spec fn view(&self) -> CapabilityModel {
        CapabilityModel {
            readable: self.readable,
            writable: self.writable,
            addable: self.addable,
            removable: self.removable,
            key_type: opt_str_model(self.key_type),
            value_type: opt_str_model(self.value_type),
        }
    }
}

/// A script function, by its definition index.
#[derive(Clone, Copy, Debug, PartialEq, Eq, Hash, Structural)]
pub struct FunctionId(pub u32);

/// A host method, by its registry index.
#[derive(Clone, Copy, Debug, PartialEq, Eq, Hash, Structural)]
pub struct HostMethodId(pub u32);

/// Settings a compilation runs with.
#[derive(Debug)]
pub struct CompilerOptions {
    host_index_capabilities: Vec<(String, HostIndexCapabilityInfo)>,
    native_module_roots: Vec<String>,
    opaque_external_type_hints: Vec<String>,
    scoped_borrow_functions: Vec<FunctionId>,
    scoped_borrow_methods: Vec<HostMethodId>,
}

/// The mathematical value of `CompilerOptions`.
pub struct OptionsModel {
    pub host_index_capabilities: Map<Seq<char>, CapabilityModel>,
    pub native_module_roots: Set<Seq<char>>,
    pub opaque_external_type_hints: Set<Seq<char>>,
    pub scoped_borrow_functions: Set<u32>,
    pub scoped_borrow_methods: Set<u32>,
}

/// Whether no key occurs twice.
pub open spec fn keys_distinct(s: Seq<(String, HostIndexCapabilityInfo)>) -> bool {
    forall|i: int, j: int| 0 <= i < j < s.len() ==> (#[trigger] s[i]).0@ != (#[trigger] s[j]).0@
}

pub open spec fn strings_distinct(s: Seq<String>) -> bool {
    forall|i: int, j: int| 0 <= i < j < s.len() ==> (#[trigger] s[i])@ != (#[trigger] s[j])@
}

pub open spec fn capabilities_model(s: Seq<(String, HostIndexCapabilityInfo)>) -> Map<
    Seq<char>,
    CapabilityModel,
> {
    Map::new(
        |k: Seq<char>| exists|i: int| 0 <= i < s.len() && (#[trigger] s[i]).0@ == k,
        |k: Seq<char>| s[choose|i: int| 0 <= i < s.len() && (#[trigger] s[i]).0@ == k].1@,
    )
}

pub open spec fn strings_model(s: Seq<String>) -> Set<Seq<char>> {
    Set::new(|k: Seq<char>| exists|i: int| 0 <= i < s.len() && (#[trigger] s[i])@ == k)
}

pub open spec fn functions_model(s: Seq<FunctionId>) -> Set<u32> {
    Set::new(|k: u32| exists|i: int| 0 <= i < s.len() && (#[trigger] s[i]).0 == k)
}

pub open spec fn methods_model(s: Seq<HostMethodId>) -> Set<u32> {
    Set::new(|k: u32| exists|i: int| 0 <= i < s.len() && (#[trigger] s[i]).0 == k)
}

impl View for CompilerOptions {
    type V = OptionsModel;

    closed spec fn view(&self) -> OptionsModel {
        OptionsModel {
            host_index_capabilities: capabilities_model(self.host_index_capabilities@),
            native_module_roots: strings_model(self.native_module_roots@),
            opaque_external_type_hints: strings_model(self.opaque_external_type_hints@),
            scoped_borrow_functions: functions_model(self.scoped_borrow_functions@),
            scoped_borrow_methods: methods_model(self.scoped_borrow_methods@),
        }
    }
}

/// The options with no capability, root, hint or scoped borrow.
pub open spec fn empty_options() -> OptionsModel {
    OptionsModel {
        host_index_capabilities: Map::empty(),
        native_module_roots: Set::empty(),
        opaque_external_type_hints: Set::empty(),
        scoped_borrow_functions: Set::empty(),
        scoped_borrow_methods: Set::empty(),
    }
}

fn position_of_key(s: &Vec<(String, HostIndexCapabilityInfo)>, key: &str) -> (r: Option<usize>)
    requires
        keys_distinct(s@),
    ensures
        match r {
            Some(i) => i < s@.len() && s@[i as int].0@ == key@ && capabilities_model(s@).dom().contains(key@)
                && capabilities_model(s@)[key@] == s@[i as int].1@,
            None => !capabilities_model(s@).dom().contains(key@),
        },
{
    let mut i: usize = 0;
    while i < s.len()
        invariant
            keys_distinct(s@),
            i <= s.len(),
            forall|k: int| 0 <= k < i ==> (#[trigger] s@[k]).0@ != key@,
        decreases s.len() - i,
    {
        if str_eq(s[i].0.as_str(), key) {
            proof {
                let j = choose|j: int| 0 <= j < s@.len() && (#[trigger] s@[j]).0@ == key@;
                if j != i {
                    if j < i {
                        assert(s@[j].0@ != s@[i as int].0@);
                    } else {
                        assert(s@[i as int].0@ != s@[j].0@);
                    }
                }
            }
            return Some(i);
        }
        i = i + 1;
    }
    None
}

fn string_set_contains(s: &Vec<String>, key: &str) -> (r: bool)
    ensures
        r == strings_model(s@).contains(key@),
{
    let mut i: usize = 0;
    while i < s.len()
        invariant
            i <= s.len(),
            forall|k: int| 0 <= k < i ==> (#[trigger] s@[k])@ != key@,
        decreases s.len() - i,
    {
        if str_eq(s[i].as_str(), key) {
            return true;
        }
        i = i + 1;
    }
    false
}

fn string_set_insert(s: &mut Vec<String>, key: String)
    requires
        strings_distinct(old(s)@),
    ensures
        strings_distinct(final(s)@),
        strings_model(final(s)@) == strings_model(old(s)@).insert(key@),
{
    if !string_set_contains(s, key.as_str()) {
        let ghost before = s@;
        s.push(key);
        proof {
            assert(strings_model(s@) =~= strings_model(before).insert(key@)) by {
                assert forall|k: Seq<char>| #[trigger] strings_model(s@).contains(k) == strings_model(before).insert(key@).contains(k) by {
                    if strings_model(before).contains(k) {
                        let i = choose|i: int| 0 <= i < before.len() && (#[trigger] before[i])@ == k;
                        assert(s@[i] == before[i]);
                    }
                    if k == key@ {
                        assert(s@[before.len() as int]@ == k);
                    }
                    if strings_model(s@).contains(k) {
                        let i = choose|i: int| 0 <= i < s@.len() && (#[trigger] s@[i])@ == k;
                        if i < before.len() {
                            assert(s@[i] == before[i]);
                        }
                    }
                }
            }
        }
    } else {
        assert(strings_model(s@).insert(key@) =~= strings_model(s@));
    }
}

impl CompilerOptions {
    #[verifier::type_invariant]
    spec fn wf(self) -> bool {
        &&& keys_distinct(self.host_index_capabilities@)
        &&& strings_distinct(self.native_module_roots@)
        &&& strings_distinct(self.opaque_external_type_hints@)
    }

    /// Options with nothing set.
    pub fn new() -> (r: Self)
        ensures
            r@ == empty_options(),
    {
        let r = CompilerOptions {
            host_index_capabilities: Vec::new(),
            native_module_roots: Vec::new(),
            opaque_external_type_hints: Vec::new(),
            scoped_borrow_functions: Vec::new(),
            scoped_borrow_methods: Vec::new(),
        };
        proof {
            assert(r@.host_index_capabilities =~= Map::empty());
            assert(r@.native_module_roots =~= Set::empty());
            assert(r@.opaque_external_type_hints =~= Set::empty());
            assert(r@.scoped_borrow_functions =~= Set::empty());
            assert(r@.scoped_borrow_methods =~= Set::empty());
        }
        r
    }

    /// Declares what indexing a host type allows; a later declaration for the
    /// same type replaces an earlier one.
    pub fn with_host_index_capability(self, host_type: String, capability: HostIndexCapabilityInfo) -> (r: Self)
        ensures
            r@ == (OptionsModel {
                host_index_capabilities: self@.host_index_capabilities.insert(host_type@, capability@),
                ..self@
            }),
    {
        proof {
            use_type_invariant(&self);
        }
        let ghost old_model = self@;
        let CompilerOptions {
            mut host_index_capabilities,
            native_module_roots,
            opaque_external_type_hints,
            scoped_borrow_functions,
            scoped_borrow_methods,
        } = self;
        let ghost before = host_index_capabilities@;
        let ghost key = host_type@;
        let ghost cap = capability@;
        match position_of_key(&host_index_capabilities, host_type.as_str()) {
            Some(i) => {
                host_index_capabilities.set(i, (host_type, capability));
                proof {
                    let after = host_index_capabilities@;
                    assert(keys_distinct(after)) by {
                        assert forall|a: int, b: int| 0 <= a < b < after.len() implies (#[trigger] after[a]).0@ != (#[trigger] after[b]).0@ by {
                            assert(after[a].0@ == before[a].0@);
                            assert(after[b].0@ == before[b].0@);
                        }
                    }
                    lemma_capabilities_set(before, i as int, key, cap, after);
                }
            },
            None => {
                host_index_capabilities.push((host_type, capability));
                proof {
                    let after = host_index_capabilities@;
                    assert(keys_distinct(after)) by {
                        assert forall|a: int, b: int| 0 <= a < b < after.len() implies (#[trigger] after[a]).0@ != (#[trigger] after[b]).0@ by {
                            if b == before.len() {
                                assert(after[a] == before[a]);
                                assert(capabilities_model(before).dom().contains(before[a].0@));
                            } else {
                                assert(after[a] == before[a]);
                                assert(after[b] == before[b]);
                            }
                        }
                    }
                    lemma_capabilities_push(before, key, cap, after);
                }
            },
        }
        CompilerOptions {
            host_index_capabilities,
            native_module_roots,
            opaque_external_type_hints,
            scoped_borrow_functions,
            scoped_borrow_methods,
        }
    }

    /// Adds a root under which native modules are looked up.
    pub fn with_native_module_root(self, root: String) -> (r: Self)
        ensures
            r@ == (OptionsModel { native_module_roots: self@.native_module_roots.insert(root@), ..self@ }),
    {
        proof {
            use_type_invariant(&self);
        }
        let CompilerOptions {
            host_index_capabilities,
            mut native_module_roots,
            opaque_external_type_hints,
            scoped_borrow_functions,
            scoped_borrow_methods,
        } = self;
        string_set_insert(&mut native_module_roots, root);
        CompilerOptions {
            host_index_capabilities,
            native_module_roots,
            opaque_external_type_hints,
            scoped_borrow_functions,
            scoped_borrow_methods,
        }
    }

    /// Allows an engine-owned native signature to name an opaque boundary type.
    pub fn with_opaque_external_type_hint(self, name: String) -> (r: Self)
        ensures
            r@ == (OptionsModel {
                opaque_external_type_hints: self@.opaque_external_type_hints.insert(name@),
                ..self@
            }),
    {
        proof {
            use_type_invariant(&self);
        }
        let CompilerOptions {
            host_index_capabilities,
            native_module_roots,
            mut opaque_external_type_hints,
            scoped_borrow_functions,
            scoped_borrow_methods,
        } = self;
        string_set_insert(&mut opaque_external_type_hints, name);
        CompilerOptions {
            host_index_capabilities,
            native_module_roots,
            opaque_external_type_hints,
            scoped_borrow_functions,
            scoped_borrow_methods,
        }
    }

    /// What indexing a host type allows, when it was declared.
    pub fn host_index_capability(&self, host_type: &str) -> (r: Option<&HostIndexCapabilityInfo>)
        ensures
            match r {
                Some(c) => self@.host_index_capabilities.dom().contains(host_type@)
                    && self@.host_index_capabilities[host_type@] == c@,
                None => !self@.host_index_capabilities.dom().contains(host_type@),
            },
    {
        proof {
            use_type_invariant(self);
        }
        match position_of_key(&self.host_index_capabilities, host_type) {
            Some(i) => Some(&self.host_index_capabilities[i].1),
            None => None,
        }
    }

    /// Marks a script function whose borrowed arguments stay scoped to the call.
    pub fn with_scoped_borrow_function(self, function: FunctionId) -> (r: Self)
        ensures
            r@ == (OptionsModel {
                scoped_borrow_functions: self@.scoped_borrow_functions.insert(function.0),
                ..self@
            }),
    {
        proof {
            use_type_invariant(&self);
        }
        let CompilerOptions {
            host_index_capabilities,
            native_module_roots,
            opaque_external_type_hints,
            mut scoped_borrow_functions,
            scoped_borrow_methods,
        } = self;
        let ghost before = scoped_borrow_functions@;
        scoped_borrow_functions.push(function);
        proof {
            let after = scoped_borrow_functions@;
            assert(functions_model(after) =~= functions_model(before).insert(function.0)) by {
                assert forall|k: u32| #[trigger] functions_model(after).contains(k) == functions_model(before).insert(function.0).contains(k) by {
                    if functions_model(before).contains(k) {
                        let i = choose|i: int| 0 <= i < before.len() && (#[trigger] before[i]).0 == k;
                        assert(after[i] == before[i]);
                    }
                    if k == function.0 {
                        assert(after[before.len() as int].0 == k);
                    }
                    if functions_model(after).contains(k) {
                        let i = choose|i: int| 0 <= i < after.len() && (#[trigger] after[i]).0 == k;
                        if i < before.len() {
                            assert(after[i] == before[i]);
                        }
                    }
                }
            }
        }
        CompilerOptions {
            host_index_capabilities,
            native_module_roots,
            opaque_external_type_hints,
            scoped_borrow_functions,
            scoped_borrow_methods,
        }
    }

    /// Marks a host method whose borrowed arguments stay scoped to the call.
    pub fn with_scoped_borrow_method(self, method: HostMethodId) -> (r: Self)
        ensures
            r@ == (OptionsModel {
                scoped_borrow_methods: self@.scoped_borrow_methods.insert(method.0),
                ..self@
            }),
    {
        proof {
            use_type_invariant(&self);
        }
        let CompilerOptions {
            host_index_capabilities,
            native_module_roots,
            opaque_external_type_hints,
            scoped_borrow_functions,
            mut scoped_borrow_methods,
        } = self;
        let ghost before = scoped_borrow_methods@;
        scoped_borrow_methods.push(method);
        proof {
            let after = scoped_borrow_methods@;
            assert(methods_model(after) =~= methods_model(before).insert(method.0)) by {
                assert forall|k: u32| #[trigger] methods_model(after).contains(k) == methods_model(before).insert(method.0).contains(k) by {
                    if methods_model(before).contains(k) {
                        let i = choose|i: int| 0 <= i < before.len() && (#[trigger] before[i]).0 == k;
                        assert(after[i] == before[i]);
                    }
                    if k == method.0 {
                        assert(after[before.len() as int].0 == k);
                    }
                    if methods_model(after).contains(k) {
                        let i = choose|i: int| 0 <= i < after.len() && (#[trigger] after[i]).0 == k;
                        if i < before.len() {
                            assert(after[i] == before[i]);
                        }
                    }
                }
            }
        }
        CompilerOptions {
            host_index_capabilities,
            native_module_roots,
            opaque_external_type_hints,
            scoped_borrow_functions,
            scoped_borrow_methods,
        }
    }

    /// Whether calls of this function keep borrowed arguments scoped.
    pub fn is_scoped_borrow_function(&self, function: FunctionId) -> (r: bool)
        ensures
            r == self@.scoped_borrow_functions.contains(function.0),
    {
        let mut i: usize = 0;
        while i < self.scoped_borrow_functions.len()
            invariant
                i <= self.scoped_borrow_functions.len(),
                forall|k: int| 0 <= k < i ==> (#[trigger] self.scoped_borrow_functions@[k]).0 != function.0,
            decreases self.scoped_borrow_functions.len() - i,
        {
            if self.scoped_borrow_functions[i].0 == function.0 {
                return true;
            }
            i = i + 1;
        }
        false
    }

    /// Whether calls of this host method keep borrowed arguments scoped.
    pub fn is_scoped_borrow_method(&self, method: HostMethodId) -> (r: bool)
        ensures
            r == self@.scoped_borrow_methods.contains(method.0),
    {
        let mut i: usize = 0;
        while i < self.scoped_borrow_methods.len()
            invariant
                i <= self.scoped_borrow_methods.len(),
                forall|k: int| 0 <= k < i ==> (#[trigger] self.scoped_borrow_methods@[k]).0 != method.0,
            decreases self.scoped_borrow_methods.len() - i,
        {
            if self.scoped_borrow_methods[i].0 == method.0 {
                return true;
            }
            i = i + 1;
        }
        false
    }

    /// Whether a native signature may name this opaque boundary type.
    pub fn allows_opaque_external_type_hint(&self, name: &str) -> (r: bool)
        ensures
            r == self@.opaque_external_type_hints.contains(name@),
    {
        string_set_contains(&self.opaque_external_type_hints, name)
    }
}

impl Default for CompilerOptions {
    fn default() -> (r: Self)
        ensures
            r@ == empty_options(),
    {
        CompilerOptions::new()
    }
}

proof fn lemma_capabilities_set(
    before: Seq<(String, HostIndexCapabilityInfo)>,
    i: int,
    key: Seq<char>,
    cap: CapabilityModel,
    after: Seq<(String, HostIndexCapabilityInfo)>,
)
    requires
        keys_distinct(before),
        keys_distinct(after),
        0 <= i < before.len(),
        before[i].0@ == key,
        after.len() == before.len(),
        after[i].0@ == key,
        after[i].1@ == cap,
        forall|j: int| 0 <= j < before.len() && j != i ==> after[j] == before[j],
    ensures
        capabilities_model(after) == capabilities_model(before).insert(key, cap),
{
    let m = capabilities_model(after);
    let n = capabilities_model(before).insert(key, cap);
    assert forall|k: Seq<char>| #[trigger] m.dom().contains(k) == n.dom().contains(k) by {
        if k != key && capabilities_model(before).dom().contains(k) {
            let j = choose|j: int| 0 <= j < before.len() && (#[trigger] before[j]).0@ == k;
            assert(after[j] == before[j]);
        }
        if m.dom().contains(k) {
            let j = choose|j: int| 0 <= j < after.len() && (#[trigger] after[j]).0@ == k;
            if j != i {
                assert(after[j] == before[j]);
            }
        }
        if k == key {
            assert(after[i].0@ == k);
        }
    }
    assert forall|k: Seq<char>| m.dom().contains(k) implies #[trigger] m[k] == n[k] by {
        let j = choose|j: int| 0 <= j < after.len() && (#[trigger] after[j]).0@ == k;
        if k == key {
            if j != i {
                assert(after[j].0@ != after[i].0@ || j == i);
            }
        } else {
            assert(j != i);
            assert(after[j] == before[j]);
            let j2 = choose|j2: int| 0 <= j2 < before.len() && (#[trigger] before[j2]).0@ == k;
            if j2 != j {
                assert(before[j2].0@ != before[j].0@ || j2 == j);
            }
        }
    }
    assert(m =~= n);
}

proof fn lemma_capabilities_push(
    before: Seq<(String, HostIndexCapabilityInfo)>,
    key: Seq<char>,
    cap: CapabilityModel,
    after: Seq<(String, HostIndexCapabilityInfo)>,
)
    requires
        keys_distinct(after),
        after.len() == before.len() + 1,
        after[before.len() as int].0@ == key,
        after[before.len() as int].1@ == cap,
        forall|j: int| 0 <= j < before.len() ==> after[j] == before[j],
    ensures
        capabilities_model(after) == capabilities_model(before).insert(key, cap),
{
    let m = capabilities_model(after);
    let n = capabilities_model(before).insert(key, cap);
    let last = before.len() as int;
    assert forall|k: Seq<char>| #[trigger] m.dom().contains(k) == n.dom().contains(k) by {
        if k != key && capabilities_model(before).dom().contains(k) {
            let j = choose|j: int| 0 <= j < before.len() && (#[trigger] before[j]).0@ == k;
            assert(after[j] == before[j]);
        }
        if m.dom().contains(k) {
            let j = choose|j: int| 0 <= j < after.len() && (#[trigger] after[j]).0@ == k;
            if j < last {
                assert(after[j] == before[j]);
            }
        }
        if k == key {
            assert(after[last].0@ == k);
        }
    }
    assert forall|k: Seq<char>| m.dom().contains(k) implies #[trigger] m[k] == n[k] by {
        let j = choose|j: int| 0 <= j < after.len() && (#[trigger] after[j]).0@ == k;
        if k == key {
            if j != last {
                assert(after[j].0@ != after[last].0@);
            }
        } else {
            assert(j != last);
            assert(after[j] == before[j]);
            let j2 = choose|j2: int| 0 <= j2 < before.len() && (#[trigger] before[j2]).0@ == k;
            if j2 != j {
                assert(after[j2] == before[j2]);
                if j2 < j {
                    assert(after[j2].0@ != after[j].0@);
                } else {
                    assert(after[j].0@ != after[j2].0@);
                }
            }
        }
    }
    assert(m =~= n);
}

/// Reading a host type's index capability gives back the last one declared
/// for it, and declaring it leaves every other type's capability as it was.
pub proof fn law_host_index_capability_read_after_write(
    options: OptionsModel,
    host_type: Seq<char>,
    capability: CapabilityModel,
    other: Seq<char>,
)
    ensures
        options.host_index_capabilities.insert(host_type, capability).dom().contains(host_type),
        options.host_index_capabilities.insert(host_type, capability)[host_type] == capability,
        other != host_type ==> (options.host_index_capabilities.insert(host_type, capability).dom().contains(other)
            == options.host_index_capabilities.dom().contains(other)),
        other != host_type ==> options.host_index_capabilities.insert(host_type, capability)[other]
            == options.host_index_capabilities[other],
{
}

} // verus!
