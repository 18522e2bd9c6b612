//! The module registry: the fixed, versioned set of host capability modules
//! made importable inside the scripting engine, plus the user script and
//! SDK modules loaded beside them.
//!
//! Registration happens once, at engine initialization; a name collision is
//! a startup-time configuration error, not a per-call error.

use vstd::prelude::*;

verus! {

/// A name collision among registered modules: a startup-time configuration
/// error.
#[derive(Clone, Debug, PartialEq, Eq)]
pub enum RegistryError {
    DuplicateModule(String),
}

/// The module exposing the schema-described guest interface itself; it is
/// resolved natively and declares no script-side exports.
pub struct JsAgentGuestModule;

impl JsAgentGuestModule {
    /// The guest module declares no exports of its own.
    pub fn export_count(&self) -> (n: usize)
        ensures
            n == 0,
    {
        0
    }
}

/// The registry of module names known to the engine's resolver and loader.
pub struct ModuleRegistry {
    names: Vec<String>,
}

impl View for ModuleRegistry {
    type V = Seq<Seq<char>>;

    closed spec fn view(&self) -> Seq<Seq<char>> {
        Seq::new(self.names@.len(), |i: int| self.names@[i]@)
    }
}

impl ModuleRegistry {
    /// An empty registry.
    pub fn new() -> (r: ModuleRegistry)
        ensures
            r@ == Seq::<Seq<char>>::empty(),
    {
        let r = ModuleRegistry { names: Vec::new() };
        proof {
            assert(r@ =~= Seq::<Seq<char>>::empty());
        }
        r
    }

    /// How many modules are registered.
    pub fn len(&self) -> (n: usize)
        ensures
            n == self@.len(),
    {
        self.names.len()
    }

    /// Whether a module of this name is registered.
    pub fn is_registered(&self, name: &String) -> (b: bool)
        ensures
            b == self@.contains(name@),
    {
        let mut i: usize = 0;
        while i < self.names.len()
            invariant
                0 <= i <= self.names@.len(),
                self@.len() == self.names@.len(),
                forall|j: int| 0 <= j < self.names@.len() ==> self@[j] == self.names@[j]@,
                forall|j: int| 0 <= j < i ==> self@[j] != name@,
            decreases self.names@.len() - i,
        {
            if self.names[i] == *name {
                proof {
                    assert(self@[i as int] == name@);
                }
                return true;
            }
            i = i + 1;
        }
        proof {
            assert(!self@.contains(name@)) by {
                assert(forall|j: int| 0 <= j < self@.len() ==> self@[j] != name@);
            }
        }
        false
    }

    /// Register a module under a stable name. Fails, leaving the registry
    /// unchanged, exactly when the name is already taken.
    pub fn register(&mut self, name: String) -> (r: Result<(), RegistryError>)
        ensures
            r is Ok <==> !old(self)@.contains(name@),
            r is Ok ==> final(self)@ == old(self)@.push(name@),
            r is Err ==> final(self)@ == old(self)@ && (r matches Err(
                RegistryError::DuplicateModule(n),
            ) && n@ == name@),
    {
        if self.is_registered(&name) {
            return Err(RegistryError::DuplicateModule(name));
        }
        let ghost pre = self@;
        let ghost nv = name@;
        self.names.push(name);
        proof {
            assert(self@ =~= pre.push(nv));
        }
        Ok(())
    }
}

/// The stable names of the host capability modules, in registration order:
/// time, polling, cross-component calling primitives, host control
/// operations, and the agent type-description vocabulary.
pub fn host_module_names() -> (names: Vec<String>)
    ensures
        names@.len() == 6,
        names@[0]@ == "wasi:io/poll@0.2.3"@,
        names@[1]@ == "wasi:clocks/monotonic-clock@0.2.3"@,
        names@[2]@ == "wasi:clocks/wall-clock@0.2.3"@,
        names@[3]@ == "golem:rpc/types@0.2.2"@,
        names@[4]@ == "golem:api/host@1.1.7"@,
        names@[5]@ == "golem:agent/common"@,
{
    let mut names: Vec<String> = Vec::new();
    names.push("wasi:io/poll@0.2.3".to_owned());
    names.push("wasi:clocks/monotonic-clock@0.2.3".to_owned());
    names.push("wasi:clocks/wall-clock@0.2.3".to_owned());
    names.push("golem:rpc/types@0.2.2".to_owned());
    names.push("golem:api/host@1.1.7".to_owned());
    names.push("golem:agent/common".to_owned());
    names
}

/// Register every host capability module with an empty registry. The fixed
/// names are pairwise distinct, so initialization never reports a
/// collision, and the resulting registry holds exactly the six stable
/// names, in registration order.
#[verifier::loop_isolation(false)]
pub fn init_host_modules() -> (r: Result<ModuleRegistry, RegistryError>)
    ensures
        r is Ok,
        (r matches Ok(reg) ==> reg@ =~= seq![
            "wasi:io/poll@0.2.3"@,
            "wasi:clocks/monotonic-clock@0.2.3"@,
            "wasi:clocks/wall-clock@0.2.3"@,
            "golem:rpc/types@0.2.2"@,
            "golem:api/host@1.1.7"@,
            "golem:agent/common"@,
        ]),
{
    let names = host_module_names();
    proof {
        reveal_strlit("wasi:io/poll@0.2.3");
        reveal_strlit("wasi:clocks/monotonic-clock@0.2.3");
        reveal_strlit("wasi:clocks/wall-clock@0.2.3");
        reveal_strlit("golem:rpc/types@0.2.2");
        reveal_strlit("golem:api/host@1.1.7");
        reveal_strlit("golem:agent/common");
        assert("wasi:io/poll@0.2.3"@.len() == 18);
        assert("wasi:clocks/monotonic-clock@0.2.3"@.len() == 33);
        assert("wasi:clocks/wall-clock@0.2.3"@.len() == 28);
        assert("golem:rpc/types@0.2.2"@.len() == 21);
        assert("golem:api/host@1.1.7"@.len() == 20);
        assert("golem:agent/common"@.len() == 18);
        assert("wasi:io/poll@0.2.3"@[0] == 'w');
        assert("golem:agent/common"@[0] == 'g');
    }
    proof {
        assert(names@[0]@ != names@[1]@);
        assert(names@[0]@ != names@[2]@);
        assert(names@[0]@ != names@[3]@);
        assert(names@[0]@ != names@[4]@);
        assert(names@[0]@ != names@[5]@);
        assert(names@[1]@ != names@[2]@);
        assert(names@[1]@ != names@[3]@);
        assert(names@[1]@ != names@[4]@);
        assert(names@[1]@ != names@[5]@);
        assert(names@[2]@ != names@[3]@);
        assert(names@[2]@ != names@[4]@);
        assert(names@[2]@ != names@[5]@);
        assert(names@[3]@ != names@[4]@);
        assert(names@[3]@ != names@[5]@);
        assert(names@[4]@ != names@[5]@);
    }
    let mut reg = ModuleRegistry::new();
    let mut i: usize = 0;
    while i < names.len()
        invariant
            0 <= i <= names@.len(),
            reg@.len() == i as int,
            forall|j: int| 0 <= j < i ==> reg@[j] == names@[j]@,
        decreases names@.len() - i,
    {
        proof {
            assert(!reg@.contains(names@[i as int]@)) by {
                assert(forall|j: int| 0 <= j < i ==> reg@[j] != names@[i as int]@);
            }
        }
        match reg.register(names[i].clone()) {
            Ok(_) => {},
            Err(er) => {
                return Err(er);
            },
        }
        i = i + 1;
    }
    proof {
        assert(reg@ =~= seq![
            "wasi:io/poll@0.2.3"@,
            "wasi:clocks/monotonic-clock@0.2.3"@,
            "wasi:clocks/wall-clock@0.2.3"@,
            "golem:rpc/types@0.2.2"@,
            "golem:api/host@1.1.7"@,
            "golem:agent/common"@,
        ]);
    }
    Ok(reg)
}

} // verus!
