//! Static extension registry.
//!
//! Only the static path exists: built-in extensions are linked into the
//! process and registered by name. Scalar functions are identified by a
//! built-in implementation tag rather than a function pointer.

use vstd::prelude::*;
use crate::codec::str_eq;
use crate::ext_abi::{abi_version_supported, RDBMS_EXT_ABI_VERSION};
use crate::sql::ValueView;
use crate::types::{DbError, DbResult, Value, user_error};

verus! {

/// Extension loading kind.
#[derive(Clone, Copy, Debug, PartialEq, Eq, Structural)]
pub enum ExtensionKind {
    /// Extension is linked into the process and registered by name.
    Static,
}

impl ExtensionKind {
    /// String persisted in catalog extension metadata.
    pub fn as_str(self) -> (r: &'static str)
        ensures
            r@ == "static"@,
    {
        match self {
            ExtensionKind::Static => "static",
        }
    }
}

/// Function arity accepted by a scalar function.
#[derive(Clone, Copy, Debug, PartialEq, Eq, Structural)]
pub enum ScalarArity {
    /// Exactly N arguments.
    Exact(usize),
}

impl ScalarArity {
    fn accepts(self, len: usize) -> (r: bool)
        ensures
            r == (self == ScalarArity::Exact(len)),
    {
        match self {
            ScalarArity::Exact(expected) => expected == len,
        }
    }
}

/// Built-in scalar function implementations.
#[derive(Clone, Copy, Debug, PartialEq, Eq, Structural)]
pub enum ScalarImpl {
    /// `length(text)`: number of characters.
    Length,
    /// `lower(text)`: ASCII lower case.
    Lower,
    /// `upper(text)`: ASCII upper case.
    Upper,
    /// `abs(int | double)`.
    Abs,
    /// `typeof(value)`.
    TypeOf,
    /// `rdbms_version()`.
    Version,
}

/// Scalar function descriptor.
#[derive(Clone, Copy, Debug)]
pub struct ScalarFunction {
    /// SQL-visible function name.
    pub name: &'static str,
    /// Accepted arity.
    pub arity: ScalarArity,
    /// Informational return type name.
    pub return_type: &'static str,
    /// Function implementation.
    pub eval: ScalarImpl,
}

/// Static extension descriptor.
#[derive(Clone, Debug)]
pub struct ExtensionDescriptor {
    /// Extension name.
    pub name: &'static str,
    /// ABI version expected by this extension.
    pub abi_version: u32,
    /// Loading kind.
    pub kind: ExtensionKind,
    /// Scalar functions exported by this extension.
    pub scalar_functions: Vec<ScalarFunction>,
}

// ---------------------------------------------------------------------------
// ASCII case mapping.

pub open spec fn ascii_lower(c: char) -> char {
    if 'A' <= c <= 'Z' {
        ((c as u32) + 32) as char
    } else {
        c
    }
}

pub open spec fn ascii_upper(c: char) -> char {
    if 'a' <= c <= 'z' {
        ((c as u32) - 32) as char
    } else {
        c
    }
}

pub open spec fn lower_str(s: Seq<char>) -> Seq<char> {
    s.map_values(|c: char| ascii_lower(c))
}

pub open spec fn upper_str(s: Seq<char>) -> Seq<char> {
    s.map_values(|c: char| ascii_upper(c))
}

/// `str::to_ascii_lowercase`: the string with `A`..`Z` mapped to `a`..`z`,
/// every other character unchanged.
#[verifier::external_body]
fn ascii_lowercase(s: &str) -> (r: String)
    ensures
        r@ == lower_str(s@),
{
    s.to_ascii_lowercase()
}

/// `str::to_ascii_uppercase`: the string with `a`..`z` mapped to `A`..`Z`,
/// every other character unchanged.
#[verifier::external_body]
pub(crate) fn ascii_uppercase(s: &str) -> (r: String)
    ensures
        r@ == upper_str(s@),
{
    s.to_ascii_uppercase()
}

/// Name normalization shared by the registry and the SQL parser.
pub fn normalize_name(name: &str) -> (r: String)
    ensures
        r@ == lower_str(name@),
{
    ascii_lowercase(name)
}

// ---------------------------------------------------------------------------
// The built-in functions.

pub open spec fn text_of(s: &str) -> ValueView {
    ValueView::Text(s@)
}

/// What a built-in scalar function answers for `args`; `None` is a refusal.
pub open spec fn scalar_result(f: ScalarImpl, args: Seq<ValueView>) -> Option<ValueView> {
    match f {
        ScalarImpl::Length => match args[0] {
            ValueView::Null => Some(ValueView::Null),
            ValueView::Text(s) => if s.len() <= i64::MAX { Some(ValueView::Integer(s.len() as i64)) } else { None },
            _ => None,
        },
        ScalarImpl::Lower => match args[0] {
            ValueView::Null => Some(ValueView::Null),
            ValueView::Text(s) => Some(ValueView::Text(lower_str(s))),
            _ => None,
        },
        ScalarImpl::Upper => match args[0] {
            ValueView::Null => Some(ValueView::Null),
            ValueView::Text(s) => Some(ValueView::Text(upper_str(s))),
            _ => None,
        },
        ScalarImpl::Abs => match args[0] {
            ValueView::Null => Some(ValueView::Null),
            ValueView::Integer(x) => if x == i64::MIN { None } else { Some(ValueView::Integer((if x < 0 { -x } else { x as int }) as i64)) },
            ValueView::Double(bits) => Some(ValueView::Double(bits & 0x7FFF_FFFF_FFFF_FFFF)),
            _ => None,
        },
        ScalarImpl::TypeOf => Some(ValueView::Text(match args[0] {
            ValueView::Null => "NULL"@,
            ValueView::Integer(_) => "INT"@,
            ValueView::Text(_) => "TEXT"@,
            ValueView::Double(_) => "DOUBLE"@,
        })),
        ScalarImpl::Version => if args.len() == 0 { Some(ValueView::Text("rdbms-stage9-extension-v0"@)) } else { None },
    }
}

/// Arguments a built-in reads: one for all but `rdbms_version`, which reads none.
pub open spec fn reads_args(f: ScalarImpl) -> nat {
    if f == ScalarImpl::Version { 0 } else { 1 }
}

/// Evaluate a built-in scalar function.
pub fn eval_scalar(f: ScalarImpl, args: &[Value]) -> (r: DbResult<Value>)
    ensures
        args@.len() < reads_args(f) ==> r is Err && r->Err_0 is InternalInvariant,
        args@.len() >= reads_args(f) ==> match scalar_result(f, args@.map_values(|v: Value| v@)) {
            Some(v) => r matches Ok(x) && x@ == v,
            None => r is Err,
        },
{
    let ghost vs = args@.map_values(|v: Value| v@);
    if f == ScalarImpl::Version {
        if args.len() != 0 {
            return Err(DbError::InternalInvariant("arity check did not run"));
        }
        return Ok(Value::Text("rdbms-stage9-extension-v0".to_string()));
    }
    if args.len() == 0 {
        return Err(DbError::InternalInvariant("scalar function called without arguments"));
    }
    assert(vs[0] == args@[0]@);
    match f {
        ScalarImpl::Length => match &args[0] {
            Value::Null => Ok(Value::Null),
            Value::Text(value) => {
                let n = value.as_str().unicode_len();
                if n as u64 > 0x7FFF_FFFF_FFFF_FFFF {
                    return Err(user_error("text length does not fit into INT"));
                }
                Ok(Value::Integer(n as i64))
            },
            _ => Err(user_error("length() expects TEXT")),
        },
        ScalarImpl::Lower => match &args[0] {
            Value::Null => Ok(Value::Null),
            Value::Text(value) => Ok(Value::Text(ascii_lowercase(value.as_str()))),
            _ => Err(user_error("lower() expects TEXT")),
        },
        ScalarImpl::Upper => match &args[0] {
            Value::Null => Ok(Value::Null),
            Value::Text(value) => Ok(Value::Text(ascii_uppercase(value.as_str()))),
            _ => Err(user_error("upper() expects TEXT")),
        },
        ScalarImpl::Abs => match &args[0] {
            Value::Null => Ok(Value::Null),
            Value::Integer(value) => {
                if *value == i64::MIN {
                    Err(user_error("abs(INT) overflow"))
                } else if *value < 0 {
                    Ok(Value::Integer(-*value))
                } else {
                    Ok(Value::Integer(*value))
                }
            },
            Value::Double(bits) => Ok(Value::Double(*bits & 0x7FFF_FFFF_FFFF_FFFF)),
            _ => Err(user_error("abs() expects INT or DOUBLE")),
        },
        ScalarImpl::TypeOf => {
            let name = match &args[0] {
                Value::Null => "NULL",
                Value::Integer(_) => "INT",
                Value::Text(_) => "TEXT",
                Value::Double(_) => "DOUBLE",
            };
            Ok(Value::Text(name.to_string()))
        },
        ScalarImpl::Version => Err(DbError::InternalInvariant("unreachable version dispatch")),
    }
}

// ---------------------------------------------------------------------------
// Descriptors and the registry.

fn scalar(name: &'static str, arity: usize, return_type: &'static str, eval: ScalarImpl) -> (f: ScalarFunction)
    ensures
        f.name == name,
        f.arity == ScalarArity::Exact(arity),
        f.return_type == return_type,
        f.eval == eval,
{
    ScalarFunction { name, arity: ScalarArity::Exact(arity), return_type, eval }
}

/// The `stdlib` function registered under name `n`: its implementation and
/// the name of its return type.
pub open spec fn stdlib_function(n: Seq<char>) -> Option<(ScalarImpl, Seq<char>)> {
    if n == "length"@ {
        Some((ScalarImpl::Length, "INT"@))
    } else if n == "lower"@ {
        Some((ScalarImpl::Lower, "TEXT"@))
    } else if n == "upper"@ {
        Some((ScalarImpl::Upper, "TEXT"@))
    } else if n == "abs"@ {
        Some((ScalarImpl::Abs, "DYNAMIC"@))
    } else if n == "typeof"@ {
        Some((ScalarImpl::TypeOf, "TEXT"@))
    } else if n == "rdbms_version"@ {
        Some((ScalarImpl::Version, "TEXT"@))
    } else {
        None
    }
}

/// `f` is a function of the built-in `stdlib` extension, under its own
/// lower-case name.
pub open spec fn is_stdlib_function(f: ScalarFunction) -> bool {
    &&& lower_str(f.name@) == f.name@
    &&& stdlib_function(f.name@) == Some((f.eval, f.return_type@))
    &&& f.arity == ScalarArity::Exact(reads_args(f.eval) as usize)
}

/// Registered names `n` and functions `f` are the earlier ones (`on`,
/// `of`) kept in place, followed by functions of `added`, each under its
/// lower-cased name.
pub open spec fn kept_then_added(
    on: Seq<Seq<char>>,
    of: Seq<ScalarFunction>,
    n: Seq<Seq<char>>,
    f: Seq<ScalarFunction>,
    added: Seq<ScalarFunction>,
) -> bool {
    &&& n.len() == f.len()
    &&& on.len() == of.len()
    &&& f.len() >= of.len()
    &&& forall|i: int| 0 <= i < of.len() ==> #[trigger] f[i] == of[i] && n[i] == on[i]
    &&& forall|i: int| of.len() <= i < f.len() ==> added.contains(#[trigger] f[i]) && n[i] == lower_str(f[i].name@)
}

/// The functions of the built-in `stdlib` extension.
pub fn stdlib_functions() -> (r: Vec<ScalarFunction>)
    ensures
        r@.len() == 6,
        forall|k: int| 0 <= k < r@.len() ==> is_stdlib_function(#[trigger] r@[k]),
        forall|n: Seq<char>| #[trigger] stdlib_function(n) is Some ==> exists|k: int| 0 <= k < r@.len() && r@[k].name@ == n,
        r@[0].name@ == "length"@ && r@[0].eval == ScalarImpl::Length && r@[0].arity == ScalarArity::Exact(1),
        r@[1].name@ == "lower"@ && r@[1].eval == ScalarImpl::Lower && r@[1].arity == ScalarArity::Exact(1),
        r@[2].name@ == "upper"@ && r@[2].eval == ScalarImpl::Upper && r@[2].arity == ScalarArity::Exact(1),
        r@[3].name@ == "abs"@ && r@[3].eval == ScalarImpl::Abs && r@[3].arity == ScalarArity::Exact(1),
        r@[4].name@ == "typeof"@ && r@[4].eval == ScalarImpl::TypeOf && r@[4].arity == ScalarArity::Exact(1),
        r@[5].name@ == "rdbms_version"@ && r@[5].eval == ScalarImpl::Version && r@[5].arity == ScalarArity::Exact(0),
{
    let mut v: Vec<ScalarFunction> = Vec::new();
    v.push(scalar("length", 1, "INT", ScalarImpl::Length));
    v.push(scalar("lower", 1, "TEXT", ScalarImpl::Lower));
    v.push(scalar("upper", 1, "TEXT", ScalarImpl::Upper));
    v.push(scalar("abs", 1, "DYNAMIC", ScalarImpl::Abs));
    v.push(scalar("typeof", 1, "TEXT", ScalarImpl::TypeOf));
    v.push(scalar("rdbms_version", 0, "TEXT", ScalarImpl::Version));
    proof {
        reveal_strlit("length");
        reveal_strlit("lower");
        reveal_strlit("upper");
        reveal_strlit("abs");
        reveal_strlit("typeof");
        reveal_strlit("rdbms_version");
        reveal_strlit("INT");
        reveal_strlit("TEXT");
        reveal_strlit("DYNAMIC");
        assert(lower_str("length"@) =~= "length"@);
        assert(lower_str("lower"@) =~= "lower"@);
        assert(lower_str("upper"@) =~= "upper"@);
        assert(lower_str("abs"@) =~= "abs"@);
        assert(lower_str("typeof"@) =~= "typeof"@);
        assert(lower_str("rdbms_version"@) =~= "rdbms_version"@);
        assert("lower"@ != "length"@);
        assert("upper"@[0] != "lower"@[0]);
        assert("upper"@ != "length"@ && "upper"@ != "lower"@);
        assert("abs"@ != "length"@ && "abs"@ != "lower"@ && "abs"@ != "upper"@);
        assert("typeof"@[0] != "length"@[0]);
        assert("typeof"@ != "length"@ && "typeof"@ != "lower"@ && "typeof"@ != "upper"@ && "typeof"@ != "abs"@);
        assert("rdbms_version"@ != "length"@ && "rdbms_version"@ != "lower"@ && "rdbms_version"@ != "upper"@
            && "rdbms_version"@ != "abs"@ && "rdbms_version"@ != "typeof"@);
        assert forall|k: int| 0 <= k < v@.len() implies is_stdlib_function(#[trigger] v@[k]) by {
            if k == 0 { assert(v@[0].name@ == "length"@); }
        }
        assert forall|n: Seq<char>| #[trigger] stdlib_function(n) is Some implies exists|k: int| 0 <= k < v@.len() && v@[k].name@ == n by {
            if n == "length"@ { assert(v@[0].name@ == n); }
            else if n == "lower"@ { assert(v@[1].name@ == n); }
            else if n == "upper"@ { assert(v@[2].name@ == n); }
            else if n == "abs"@ { assert(v@[3].name@ == n); }
            else if n == "typeof"@ { assert(v@[4].name@ == n); }
            else { assert(v@[5].name@ == n); }
        }
    }
    v
}

fn copy_descriptor(d: &ExtensionDescriptor) -> (r: ExtensionDescriptor)
    ensures
        r.name == d.name,
        r.abi_version == d.abi_version,
        r.kind == d.kind,
        r.scalar_functions@ == d.scalar_functions@,
{
    let mut functions: Vec<ScalarFunction> = Vec::new();
    let mut i: usize = 0;
    while i < d.scalar_functions.len()
        invariant
            i <= d.scalar_functions@.len(),
            functions@ == d.scalar_functions@.subrange(0, i as int),
        decreases d.scalar_functions@.len() - i,
    {
        let f = d.scalar_functions[i];
        functions.push(f);
        i = i + 1;
        assert(functions@ =~= d.scalar_functions@.subrange(0, i as int));
    }
    assert(functions@ =~= d.scalar_functions@);
    ExtensionDescriptor { name: d.name, abi_version: d.abi_version, kind: d.kind, scalar_functions: functions }
}

/// Lookup a built-in extension descriptor by name.
pub fn builtin_extension_descriptor(name: &str) -> (r: DbResult<ExtensionDescriptor>)
    ensures
        r is Ok <==> lower_str(name@) == "stdlib"@,
        r matches Ok(d) ==> d.name@ == "stdlib"@ && d.abi_version == RDBMS_EXT_ABI_VERSION
            && d.kind == ExtensionKind::Static && d.scalar_functions@.len() == 6
            && (forall|k: int| 0 <= k < d.scalar_functions@.len() ==> is_stdlib_function(#[trigger] d.scalar_functions@[k]))
            && (forall|n: Seq<char>| #[trigger] stdlib_function(n) is Some
                ==> exists|k: int| 0 <= k < d.scalar_functions@.len() && d.scalar_functions@[k].name@ == n),
        r is Err ==> r->Err_0 is Extension,
{
    let normalized = normalize_name(name);
    if str_eq(normalized.as_str(), "stdlib") {
        Ok(ExtensionDescriptor {
            name: "stdlib",
            abi_version: RDBMS_EXT_ABI_VERSION,
            kind: ExtensionKind::Static,
            scalar_functions: stdlib_functions(),
        })
    } else {
        Err(DbError::Extension("unknown static extension".to_string()))
    }
}

/// Names of built-in static extensions known to this build.
pub fn builtin_extension_names() -> (r: Vec<&'static str>)
    ensures
        r@.len() == 1,
        r@[0]@ == "stdlib"@,
{
    let mut names: Vec<&'static str> = Vec::new();
    names.push("stdlib");
    names
}

/// Runtime registry of loaded static extensions and their scalar functions,
/// keyed by normalized (ASCII lower-case) name.
pub struct ExtensionRegistry {
    extensions: Vec<(String, ExtensionDescriptor)>,
    scalar_functions: Vec<(String, ScalarFunction)>,
}

impl ExtensionRegistry {
    /// Normalized names of the loaded extensions, in load order.
    pub closed spec fn loaded(&self) -> Seq<Seq<char>> {
        self.extensions@.map_values(|e: (String, ExtensionDescriptor)| e.0@)
    }

    /// Normalized names of the registered functions.
    pub closed spec fn function_names(&self) -> Seq<Seq<char>> {
        self.scalar_functions@.map_values(|e: (String, ScalarFunction)| e.0@)
    }

    /// The registered functions, in the order of `function_names`.
    pub closed spec fn functions(&self) -> Seq<ScalarFunction> {
        self.scalar_functions@.map_values(|e: (String, ScalarFunction)| e.1)
    }

    /// Each registered function is registered under its lower-cased name.
    pub open spec fn names_lowered(&self) -> bool {
        &&& self.function_names().len() == self.functions().len()
        &&& forall|i: int| 0 <= i < self.functions().len() ==> self.function_names()[i] == lower_str(#[trigger] self.functions()[i].name@)
    }

    /// Create an empty registry.
    pub fn new() -> (r: Self)
        ensures
            r.loaded() == Seq::<Seq<char>>::empty(),
            r.function_names() == Seq::<Seq<char>>::empty(),
            r.functions() == Seq::<ScalarFunction>::empty(),
            r.names_lowered(),
    {
        let r = ExtensionRegistry { extensions: Vec::new(), scalar_functions: Vec::new() };
        assert(r.loaded() =~= Seq::<Seq<char>>::empty());
        assert(r.function_names() =~= Seq::<Seq<char>>::empty());
        assert(r.functions() =~= Seq::<ScalarFunction>::empty());
        r
    }

    fn function_position(&self, key: &str) -> (r: Option<usize>)
        ensures
            match r {
                Some(i) => i < self.function_names().len() && self.function_names()[i as int] == key@,
                None => !self.function_names().contains(key@),
            },
    {
        let mut i: usize = 0;
        while i < self.scalar_functions.len()
            invariant
                i <= self.scalar_functions@.len(),
                forall|j: int| 0 <= j < i ==> #[trigger] self.function_names()[j] != key@,
            decreases self.scalar_functions@.len() - i,
        {
            if str_eq(self.scalar_functions[i].0.as_str(), key) {
                return Some(i);
            }
            i = i + 1;
        }
        None
    }

    /// Return true when an extension is loaded in this registry.
    pub fn is_loaded(&self, name: &str) -> (r: bool)
        ensures
            r == self.loaded().contains(lower_str(name@)),
    {
        let key = normalize_name(name);
        let mut i: usize = 0;
        while i < self.extensions.len()
            invariant
                i <= self.extensions@.len(),
                key@ == lower_str(name@),
                forall|j: int| 0 <= j < i ==> #[trigger] self.loaded()[j] != key@,
            decreases self.extensions@.len() - i,
        {
            if str_eq(self.extensions[i].0.as_str(), key.as_str()) {
                assert(self.loaded()[i as int] == key@);
                return true;
            }
            i = i + 1;
        }
        false
    }

    /// Return a scalar function descriptor by SQL-visible name.
    pub fn scalar_function(&self, name: &str) -> (r: Option<&ScalarFunction>)
        ensures
            r is None <==> !self.function_names().contains(lower_str(name@)),
            r matches Some(f) ==> exists|i: int| 0 <= i < self.function_names().len()
                && self.function_names()[i] == lower_str(name@) && *f == #[trigger] self.functions()[i],
    {
        let key = normalize_name(name);
        match self.function_position(key.as_str()) {
            Some(i) => {
                assert(self.functions()[i as int] == self.scalar_functions@[i as int].1);
                Some(&self.scalar_functions[i].1)
            },
            None => None,
        }
    }

    /// Call a registered scalar function.
    pub fn call_scalar(&self, name: &str, args: &[Value]) -> (r: DbResult<Value>)
        ensures
            !self.function_names().contains(lower_str(name@)) ==> r is Err && r->Err_0 is User,
            r is Ok ==> exists|i: int| 0 <= i < self.function_names().len()
                && self.function_names()[i] == lower_str(name@)
                && #[trigger] self.functions()[i].arity == ScalarArity::Exact(args@.len() as usize)
                && scalar_result(self.functions()[i].eval, args@.map_values(|v: Value| v@)) == Some(r->Ok_0@),
            self.function_names().contains(lower_str(name@)) && (forall|i: int| 0 <= i < self.function_names().len()
                && self.function_names()[i] == lower_str(name@) ==> #[trigger] self.functions()[i].arity == ScalarArity::Exact(args@.len() as usize)
                && args@.len() >= reads_args(self.functions()[i].eval)
                && scalar_result(self.functions()[i].eval, args@.map_values(|v: Value| v@)) is Some) ==> r is Ok,
    {
        let function = match self.scalar_function(name) {
            Some(function) => function,
            None => return Err(user_error("unknown scalar function")),
        };
        let ghost j = choose|j: int| 0 <= j < self.function_names().len()
            && self.function_names()[j] == lower_str(name@) && *function == #[trigger] self.functions()[j];
        assert(*function == self.functions()[j]);
        if !function.arity.accepts(args.len()) {
            return Err(user_error("scalar function called with the wrong number of arguments"));
        }
        let r = eval_scalar(function.eval, args);
        proof {
            if r is Ok {
                assert(args@.len() >= reads_args(function.eval) || r is Err);
            }
        }
        r
    }

    /// Load a static descriptor after validating its ABI version. Loading an
    /// extension twice is a no-op; a function name clash is refused.
    pub fn load(&mut self, descriptor: ExtensionDescriptor) -> (r: DbResult<()>)
        ensures
            !abi_version_supported_spec(descriptor.abi_version) ==> r is Err && r->Err_0 is Extension
                && final(self).loaded() == old(self).loaded() && final(self).function_names() == old(self).function_names(),
            abi_version_supported_spec(descriptor.abi_version) && old(self).loaded().contains(lower_str(descriptor.name@))
                ==> r is Ok && final(self).loaded() == old(self).loaded() && final(self).function_names() == old(self).function_names(),
            r is Err ==> final(self).loaded() == old(self).loaded() && final(self).function_names() == old(self).function_names(),
            r is Ok ==> final(self).loaded().contains(lower_str(descriptor.name@)),
            r is Ok && !old(self).loaded().contains(lower_str(descriptor.name@)) ==> forall|k: int| 0 <= k < descriptor.scalar_functions@.len() ==>
                final(self).function_names().contains(lower_str(#[trigger] descriptor.scalar_functions@[k].name@)),
            forall|x: Seq<char>| old(self).loaded().contains(x) ==> #[trigger] final(self).loaded().contains(x),
            old(self).names_lowered() ==> final(self).names_lowered(),
            forall|i: int| 0 <= i < final(self).functions().len() ==> old(self).functions().contains(#[trigger] final(self).functions()[i])
                || descriptor.scalar_functions@.contains(final(self).functions()[i]),
            r is Err || old(self).loaded().contains(lower_str(descriptor.name@)) ==> final(self).functions() == old(self).functions(),
            r is Ok && !old(self).loaded().contains(lower_str(descriptor.name@)) ==> kept_then_added(old(self).function_names(),
                old(self).functions(), final(self).function_names(), final(self).functions(), descriptor.scalar_functions@),
            abi_version_supported_spec(descriptor.abi_version) && !old(self).loaded().contains(lower_str(descriptor.name@)) ==> {
                &&& r is Err <==> exists|k: int| 0 <= k < descriptor.scalar_functions@.len()
                    && old(self).function_names().contains(lower_str(#[trigger] descriptor.scalar_functions@[k].name@))
                &&& r is Err ==> r->Err_0 is Extension
                &&& r is Ok ==> final(self).loaded() == old(self).loaded().push(lower_str(descriptor.name@))
                &&& r is Ok ==> forall|x: Seq<char>| #[trigger] final(self).function_names().contains(x)
                    <==> old(self).function_names().contains(x) || exists|k: int| 0 <= k < descriptor.scalar_functions@.len()
                        && x == lower_str(#[trigger] descriptor.scalar_functions@[k].name@)
            },
    {
        if !abi_version_supported(descriptor.abi_version) {
            return Err(DbError::Extension("extension requires an unsupported ABI version".to_string()));
        }
        if self.is_loaded(descriptor.name) {
            return Ok(());
        }
        let functions = &descriptor.scalar_functions;
        let mut i: usize = 0;
        while i < functions.len()
            invariant
                i <= functions@.len(),
                !self.loaded().contains(lower_str(descriptor.name@)),
                self.loaded() == old(self).loaded(),
                self.function_names() == old(self).function_names(),
                abi_version_supported_spec(descriptor.abi_version),
                functions@ == descriptor.scalar_functions@,
                forall|m: int| 0 <= m < i ==> !old(self).function_names().contains(lower_str(#[trigger] functions@[m].name@)),
            decreases functions@.len() - i,
        {
            let key = normalize_name(functions[i].name);
            if self.function_position(key.as_str()).is_some() {
                return Err(DbError::Extension("scalar function already registered".to_string()));
            }
            i = i + 1;
        }
        let mut k: usize = 0;
        while k < functions.len()
            invariant
                k <= functions@.len(),
                functions@ == descriptor.scalar_functions@,
                self.loaded() == old(self).loaded(),
                !self.loaded().contains(lower_str(descriptor.name@)),
                forall|m: int| 0 <= m < k ==> self.function_names().contains(lower_str(#[trigger] functions@[m].name@)),
                forall|x: Seq<char>| #[trigger] self.function_names().contains(x)
                    <==> old(self).function_names().contains(x) || exists|m: int| 0 <= m < k
                        && x == lower_str(#[trigger] functions@[m].name@),
                old(self).names_lowered() ==> self.names_lowered(),
                forall|i: int| 0 <= i < self.functions().len() ==> old(self).functions().contains(#[trigger] self.functions()[i])
                    || functions@.contains(self.functions()[i]),
                forall|m: int| 0 <= m < functions@.len() ==> !old(self).function_names().contains(lower_str(#[trigger] functions@[m].name@)),
                kept_then_added(old(self).function_names(), old(self).functions(), self.function_names(), self.functions(), functions@),
            decreases functions@.len() - k,
        {
            let f = functions[k];
            let key = normalize_name(f.name);
            let ghost before = self.function_names();
            let ghost before_fns = self.functions();
            match self.function_position(key.as_str()) {
                Some(p) => {
                    proof {
                        if (p as int) < old(self).function_names().len() {
                            assert(before_fns[p as int] == old(self).functions()[p as int]);
                            assert(before[p as int] == old(self).function_names()[p as int]);
                            assert(old(self).function_names().contains(lower_str(functions@[k as int].name@)));
                        }
                    }
                    self.scalar_functions.set(p, (key, f));
                    assert(self.function_names() =~= before);
                    assert(self.functions() =~= before_fns.update(p as int, f));
                    assert(functions@[k as int] == f);
                    assert(functions@.contains(f));
                    assert forall|i: int| 0 <= i < self.functions().len() implies old(self).functions().contains(#[trigger] self.functions()[i])
                        || functions@.contains(self.functions()[i]) by {
                        if i != p as int { assert(self.functions()[i] == before_fns[i]); }
                    }
                },
                None => {
                    self.scalar_functions.push((key, f));
                    assert(self.function_names() =~= before.push(lower_str(f.name@)));
                    assert(self.function_names()[before.len() as int] == lower_str(f.name@));
                    assert(self.functions() =~= before_fns.push(f));
                    assert(functions@[k as int] == f);
                    assert(functions@.contains(f));
                    assert forall|i: int| 0 <= i < self.functions().len() implies old(self).functions().contains(#[trigger] self.functions()[i])
                        || functions@.contains(self.functions()[i]) by {
                        if i < before_fns.len() { assert(self.functions()[i] == before_fns[i]); }
                    }
                },
            }
            assert(self.function_names().contains(lower_str(functions@[k as int].name@)));
            assert forall|x: Seq<char>| #[trigger] self.function_names().contains(x)
                <==> old(self).function_names().contains(x) || exists|m: int| 0 <= m < k + 1
                    && x == lower_str(#[trigger] functions@[m].name@) by {
                if self.function_names().contains(x) && !before.contains(x) {
                    assert(x == lower_str(functions@[k as int].name@));
                }
                if before.contains(x) {
                    let j = choose|j: int| 0 <= j < before.len() && before[j] == x;
                    assert(self.function_names()[j] == x);
                }
                if exists|m: int| 0 <= m < k + 1 && x == lower_str(#[trigger] functions@[m].name@) {
                    let m = choose|m: int| 0 <= m < k + 1 && x == lower_str(#[trigger] functions@[m].name@);
                    if m < k {
                        assert(before.contains(x));
                    }
                }
            }
            assert forall|m: int| 0 <= m < k + 1 implies self.function_names().contains(lower_str(#[trigger] functions@[m].name@)) by {
                if m < k {
                    let x = lower_str(functions@[m].name@);
                    assert(before.contains(x));
                    let j = choose|j: int| 0 <= j < before.len() && before[j] == x;
                    assert(self.function_names()[j] == x);
                }
            }
            k = k + 1;
        }
        let key = normalize_name(descriptor.name);
        let ghost before = self.loaded();
        let ghost fnames = self.function_names();
        let ghost fns_after = self.functions();
        self.extensions.push((key, descriptor));
        assert(self.functions() == fns_after);
        assert(self.loaded() =~= before.push(lower_str(descriptor.name@)));
        assert(self.loaded()[before.len() as int] == lower_str(descriptor.name@));
        assert forall|x: Seq<char>| old(self).loaded().contains(x) implies #[trigger] self.loaded().contains(x) by {
            let j = choose|j: int| 0 <= j < before.len() && before[j] == x;
            assert(self.loaded()[j] == x);
        }
        assert(self.function_names() == fnames);
        Ok(())
    }

    /// Load a built-in static extension by name.
    pub fn load_static(&mut self, name: &str) -> (r: DbResult<ExtensionDescriptor>)
        ensures
            lower_str(name@) != "stdlib"@ ==> r is Err && r->Err_0 is Extension && final(self).loaded() == old(self).loaded(),
            r matches Ok(d) ==> d.name@ == "stdlib"@ && final(self).loaded().contains(lower_str(d.name@)),
            r matches Ok(d) ==> d.abi_version == RDBMS_EXT_ABI_VERSION && d.kind == ExtensionKind::Static
                && d.scalar_functions@.len() == 6
                && (forall|k: int| 0 <= k < d.scalar_functions@.len() ==> is_stdlib_function(#[trigger] d.scalar_functions@[k])),
            lower_str(name@) == "stdlib"@ && (old(self).loaded().contains("stdlib"@)
                || forall|n: Seq<char>| #[trigger] stdlib_function(n) is Some ==> !old(self).function_names().contains(n))
                ==> r is Ok,
            lower_str(name@) == "stdlib"@ && !old(self).loaded().contains("stdlib"@) && r is Ok ==> {
                &&& final(self).loaded() == old(self).loaded().push("stdlib"@)
                &&& forall|n: Seq<char>| #[trigger] stdlib_function(n) is Some ==> final(self).function_names().contains(n)
            },
            lower_str(name@) == "stdlib"@ && old(self).loaded().contains("stdlib"@) ==> final(self).loaded() == old(self).loaded()
                && final(self).function_names() == old(self).function_names() && final(self).functions() == old(self).functions(),
            r is Err ==> final(self).loaded() == old(self).loaded() && final(self).function_names() == old(self).function_names()
                && final(self).functions() == old(self).functions(),
            r is Ok && !old(self).loaded().contains("stdlib"@) ==> {
                let on = old(self).functions();
                let f = final(self).functions();
                &&& f.len() >= on.len()
                &&& forall|i: int| 0 <= i < on.len() ==> #[trigger] f[i] == on[i]
                    && final(self).function_names()[i] == old(self).function_names()[i]
                &&& forall|i: int| on.len() <= i < f.len() ==> is_stdlib_function(#[trigger] f[i])
                    && final(self).function_names()[i] == f[i].name@
            },
    {
        let descriptor = builtin_extension_descriptor(name)?;
        let returned = copy_descriptor(&descriptor);
        proof {
            reveal_strlit("stdlib");
            assert(lower_str("stdlib"@) =~= "stdlib"@);
            let fns = descriptor.scalar_functions@;
            if !self.loaded().contains("stdlib"@)
                && forall|n: Seq<char>| #[trigger] stdlib_function(n) is Some ==> !self.function_names().contains(n) {
                assert forall|k: int| 0 <= k < fns.len() implies !self.function_names().contains(lower_str(#[trigger] fns[k].name@)) by {
                    assert(is_stdlib_function(fns[k]));
                    assert(stdlib_function(fns[k].name@) is Some);
                }
            }
        }
        let ghost fns = descriptor.scalar_functions@;
        self.load(descriptor)?;
        proof {
            if !old(self).loaded().contains("stdlib"@) {
                let f = self.functions();
                assert forall|i: int| old(self).functions().len() <= i < f.len() implies is_stdlib_function(#[trigger] f[i])
                    && self.function_names()[i] == f[i].name@ by {
                    let k = choose|k: int| 0 <= k < fns.len() && fns[k] == f[i];
                    assert(is_stdlib_function(fns[k]));
                }
                assert forall|n: Seq<char>| #[trigger] stdlib_function(n) is Some implies self.function_names().contains(n) by {
                    let k = choose|k: int| 0 <= k < fns.len() && fns[k].name@ == n;
                    assert(is_stdlib_function(fns[k]));
                    assert(self.function_names().contains(lower_str(fns[k].name@)));
                }
            }
        }
        Ok(returned)
    }
}

pub open spec fn abi_version_supported_spec(version: u32) -> bool {
    version == RDBMS_EXT_ABI_VERSION
}

/// An installed-extension record that the runtime can load: a static
/// extension named `stdlib` (ASCII case-insensitively) built for this ABI.
pub open spec fn installed_ok(name: Seq<char>, abi: u32, kind: Seq<char>) -> bool {
    &&& kind == "static"@
    &&& lower_str(name) == "stdlib"@
    &&& abi == RDBMS_EXT_ABI_VERSION
}

/// Build a registry from persisted catalog extension metadata
/// `(name, abi_version, kind)`.
pub fn registry_from_installed_extensions(installed: &[(&str, u32, &str)]) -> (r: DbResult<ExtensionRegistry>)
    ensures
        r matches Ok(reg) ==> forall|i: int| 0 <= i < installed@.len() ==>
            reg.loaded().contains(lower_str((#[trigger] installed@[i]).0@)),
        r matches Ok(reg) ==> reg.names_lowered()
            && forall|i: int| 0 <= i < reg.functions().len() ==> is_stdlib_function(#[trigger] reg.functions()[i]),
        (exists|i: int| 0 <= i < installed@.len() && (#[trigger] installed@[i]).2@ != "static"@) ==> r is Err,
        r is Ok <==> forall|i: int| 0 <= i < installed@.len()
            ==> installed_ok((#[trigger] installed@[i]).0@, installed@[i].1, installed@[i].2@),
        r matches Ok(reg) ==> (installed@.len() > 0 ==> forall|n: Seq<char>| #[trigger] stdlib_function(n) is Some
            ==> reg.function_names().contains(n)),
{
    let mut registry = ExtensionRegistry::new();
    let mut i: usize = 0;
    while i < installed.len()
        invariant
            i <= installed@.len(),
            forall|j: int| 0 <= j < i ==> registry.loaded().contains(lower_str((#[trigger] installed@[j]).0@)),
            forall|j: int| 0 <= j < i ==> (#[trigger] installed@[j]).2@ == "static"@,
            registry.names_lowered(),
            forall|j: int| 0 <= j < registry.functions().len() ==> is_stdlib_function(#[trigger] registry.functions()[j]),
            forall|j: int| 0 <= j < i ==> installed_ok((#[trigger] installed@[j]).0@, installed@[j].1, installed@[j].2@),
            registry.loaded().len() == 0 ==> registry.function_names().len() == 0,
            forall|x: Seq<char>| #[trigger] registry.loaded().contains(x) ==> x == "stdlib"@,
            i > 0 ==> forall|n: Seq<char>| #[trigger] stdlib_function(n) is Some ==> registry.function_names().contains(n),
            i == 0 ==> registry.loaded().len() == 0,
        decreases installed@.len() - i,
    {
        let (name, abi_version, kind) = installed[i];
        proof {
            reveal_strlit("stdlib");
            reveal_strlit("static");
        }
        if !str_eq(kind, ExtensionKind::Static.as_str()) {
            return Err(DbError::Extension("unsupported extension kind".to_string()));
        }
        let descriptor = builtin_extension_descriptor(name)?;
        if descriptor.abi_version != abi_version {
            return Err(DbError::Extension("installed extension ABI does not match the runtime".to_string()));
        }
        let ghost before = registry.loaded();
        let ghost before_names = registry.function_names();
        let ghost before_fns = registry.functions();
        let ghost dfns = descriptor.scalar_functions@;
        proof {
            assert(lower_str("stdlib"@) =~= "stdlib"@);
            assert(lower_str(descriptor.name@) == "stdlib"@);
            if !before.contains("stdlib"@) {
                if before.len() > 0 {
                    assert(before.contains(before[0]));
                }
                assert(before_names.len() == 0);
            }
        }
        registry.load(descriptor)?;
        proof {
            assert forall|x: Seq<char>| #[trigger] registry.loaded().contains(x) implies x == "stdlib"@ by {
                if !before.contains(x) {
                    let m = choose|m: int| 0 <= m < registry.loaded().len() && registry.loaded()[m] == x;
                    assert(registry.loaded() == before.push("stdlib"@));
                    if m < before.len() { assert(before[m] == x); }
                }
            }
            assert(registry.loaded().contains("stdlib"@));
            assert forall|n: Seq<char>| #[trigger] stdlib_function(n) is Some implies registry.function_names().contains(n) by {
                if !before.contains("stdlib"@) {
                    let k = choose|k: int| 0 <= k < dfns.len() && dfns[k].name@ == n;
                    assert(is_stdlib_function(dfns[k]));
                    assert(registry.function_names().contains(lower_str(dfns[k].name@)));
                } else {
                    assert(i > 0);
                    assert(registry.function_names() == before_names);
                }
            }
            assert forall|j: int| 0 <= j < registry.functions().len() implies is_stdlib_function(#[trigger] registry.functions()[j]) by {
                let f = registry.functions()[j];
                if before_fns.contains(f) {
                    let m = choose|m: int| 0 <= m < before_fns.len() && before_fns[m] == f;
                    assert(is_stdlib_function(before_fns[m]));
                } else {
                    assert(dfns.contains(f));
                    let m = choose|m: int| 0 <= m < dfns.len() && dfns[m] == f;
                    assert(is_stdlib_function(dfns[m]));
                }
            }
            assert forall|j: int| 0 <= j < i + 1 implies registry.loaded().contains(lower_str((#[trigger] installed@[j]).0@)) by {
                let x = lower_str(installed@[j].0@);
                if j < i {
                    assert(before.contains(x));
                    assert(registry.loaded().contains(x));
                } else {
                    reveal_strlit("stdlib");
                    assert(lower_str("stdlib"@) =~= "stdlib"@);
                    assert(x == lower_str(name@));
                }
            }
        }
        i = i + 1;
    }
    Ok(registry)
}

/// Law (abs on integers): `abs` of an integer other than `i64::MIN` is not
/// negative and is the integer itself or its negation, whichever is not
/// negative; `abs(i64::MIN)` is refused.
pub proof fn law_abs_integer(x: i64)
    ensures
        x == i64::MIN ==> scalar_result(ScalarImpl::Abs, seq![ValueView::Integer(x)]) is None,
        x != i64::MIN ==> (scalar_result(ScalarImpl::Abs, seq![ValueView::Integer(x)]) matches Some(ValueView::Integer(y))
            && y >= 0 && (x >= 0 ==> y == x) && (x < 0 ==> y == -x)),
{
}

/// Law (abs on doubles): `abs` of a double clears its sign bit and keeps
/// every other bit.
pub proof fn law_abs_double(bits: u64)
    ensures
        scalar_result(ScalarImpl::Abs, seq![ValueView::Double(bits)]) matches Some(ValueView::Double(b))
            && b < 0x8000_0000_0000_0000u64 && b % 0x8000_0000_0000_0000u64 == bits % 0x8000_0000_0000_0000u64,
{
    let b = bits & 0x7FFF_FFFF_FFFF_FFFFu64;
    assert(b < 0x8000_0000_0000_0000u64 && b % 0x8000_0000_0000_0000u64 == bits % 0x8000_0000_0000_0000u64) by (bit_vector)
        requires b == bits & 0x7FFF_FFFF_FFFF_FFFFu64;
}

/// Law (length): `length` of a text is its number of characters.
pub proof fn law_length_text(s: Seq<char>)
    requires
        s.len() <= i64::MAX,
    ensures
        scalar_result(ScalarImpl::Length, seq![ValueView::Text(s)]) matches Some(ValueView::Integer(n)) && n == s.len(),
{
}

/// Law (case mapping): `upper` and `lower` keep a text's length, map each
/// ASCII letter to the other case, and keep every other character.
pub proof fn law_case_mapping(s: Seq<char>)
    ensures
        scalar_result(ScalarImpl::Upper, seq![ValueView::Text(s)]) matches Some(ValueView::Text(t)) && t.len() == s.len()
            && forall|i: int| 0 <= i < s.len() ==> {
                &&& 'a' <= s[i] <= 'z' ==> #[trigger] t[i] as u32 == s[i] as u32 - 32
                &&& !('a' <= s[i] <= 'z') ==> t[i] == s[i]
            },
        scalar_result(ScalarImpl::Lower, seq![ValueView::Text(s)]) matches Some(ValueView::Text(t)) && t.len() == s.len()
            && forall|i: int| 0 <= i < s.len() ==> {
                &&& 'A' <= s[i] <= 'Z' ==> #[trigger] t[i] as u32 == s[i] as u32 + 32
                &&& !('A' <= s[i] <= 'Z') ==> t[i] == s[i]
            },
{
}
/// Law (NULL and wrong types): `length`, `lower`, `upper` and `abs` answer
/// NULL for NULL; `length`, `lower` and `upper` refuse numbers, and `abs`
/// refuses text.
pub proof fn law_null_and_types(v: ValueView)
    ensures
        v is Null ==> scalar_result(ScalarImpl::Length, seq![v]) == Some(ValueView::Null)
            && scalar_result(ScalarImpl::Lower, seq![v]) == Some(ValueView::Null)
            && scalar_result(ScalarImpl::Upper, seq![v]) == Some(ValueView::Null)
            && scalar_result(ScalarImpl::Abs, seq![v]) == Some(ValueView::Null),
        (v is Integer || v is Double) ==> scalar_result(ScalarImpl::Length, seq![v]) is None
            && scalar_result(ScalarImpl::Lower, seq![v]) is None
            && scalar_result(ScalarImpl::Upper, seq![v]) is None,
        v is Text ==> scalar_result(ScalarImpl::Abs, seq![v]) is None,
{
}
} // verus!
