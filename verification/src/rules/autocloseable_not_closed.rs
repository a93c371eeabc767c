//! Reports locally created `AutoCloseable` resources that some path leaves
//! without closing.
use vstd::prelude::*;
use crate::engine::{AnalysisContext, opt_view};
use crate::error::AnalysisError;
use crate::ir::{CallSite, Class, Method, class_seq};
use crate::callgraph::insert_name;
use crate::rules::call_scan::about_method;
use crate::rules::location::{Finding, FindingView, RuleMetadata, finding, finding_views, method_location_spec, method_location_with_line, push_finding};
use crate::rules::resource_lifecycle::{ResourceKind, analyze_lifecycle};
use crate::text::{ends_with, has_name, lemma_lex_lt_irreflexive, lex_sorted, seq_ends_with, str_eq, views};

verus! {

/// The public JDK types known to be `AutoCloseable` (other than the no-op ones).
pub open spec fn known_autocloseable_spec(n: Seq<char>) -> bool {
    ||| n == "java/lang/AutoCloseable"@
    ||| n == "java/io/Closeable"@
    ||| n == "java/beans/XMLDecoder"@
    ||| n == "java/beans/XMLEncoder"@
    ||| n == "java/io/InputStream"@
    ||| n == "java/io/FileInputStream"@
    ||| n == "java/io/BufferedInputStream"@
    ||| n == "java/io/DataInputStream"@
    ||| n == "java/io/FilterInputStream"@
    ||| n == "java/io/LineNumberInputStream"@
    ||| n == "java/io/ObjectInput"@
    ||| n == "java/io/ObjectInputStream"@
    ||| n == "java/io/PipedInputStream"@
    ||| n == "java/io/PushbackInputStream"@
    ||| n == "java/io/SequenceInputStream"@
    ||| n == "java/security/DigestInputStream"@
    ||| n == "java/util/zip/CheckedInputStream"@
    ||| n == "java/util/zip/DeflaterInputStream"@
    ||| n == "java/util/zip/GZIPInputStream"@
    ||| n == "java/util/zip/InflaterInputStream"@
    ||| n == "java/util/zip/ZipInputStream"@
    ||| n == "java/util/jar/JarInputStream"@
    ||| n == "javax/crypto/CipherInputStream"@
    ||| n == "javax/swing/ProgressMonitorInputStream"@
    ||| n == "java/io/OutputStream"@
    ||| n == "java/io/FileOutputStream"@
    ||| n == "java/io/BufferedOutputStream"@
    ||| n == "java/io/DataOutputStream"@
    ||| n == "java/io/FilterOutputStream"@
    ||| n == "java/io/ObjectOutput"@
    ||| n == "java/io/ObjectOutputStream"@
    ||| n == "java/io/PipedOutputStream"@
    ||| n == "java/io/PrintStream"@
    ||| n == "java/security/DigestOutputStream"@
    ||| n == "java/util/zip/CheckedOutputStream"@
    ||| n == "java/util/zip/DeflaterOutputStream"@
    ||| n == "java/util/zip/GZIPOutputStream"@
    ||| n == "java/util/zip/InflaterOutputStream"@
    ||| n == "java/util/zip/ZipOutputStream"@
    ||| n == "java/util/jar/JarOutputStream"@
    ||| n == "javax/crypto/CipherOutputStream"@
    ||| n == "java/io/Reader"@
    ||| n == "java/io/FileReader"@
    ||| n == "java/io/BufferedReader"@
    ||| n == "java/io/InputStreamReader"@
    ||| n == "java/io/FilterReader"@
    ||| n == "java/io/LineNumberReader"@
    ||| n == "java/io/PipedReader"@
    ||| n == "java/io/PushbackReader"@
    ||| n == "java/io/Writer"@
    ||| n == "java/io/FileWriter"@
    ||| n == "java/io/BufferedWriter"@
    ||| n == "java/io/OutputStreamWriter"@
    ||| n == "java/io/FilterWriter"@
    ||| n == "java/io/PipedWriter"@
    ||| n == "java/io/PrintWriter"@
    ||| n == "java/io/RandomAccessFile"@
    ||| n == "java/sql/Connection"@
    ||| n == "java/sql/Statement"@
    ||| n == "java/sql/PreparedStatement"@
    ||| n == "java/sql/CallableStatement"@
    ||| n == "java/sql/ResultSet"@
    ||| n == "java/lang/foreign/Arena"@
    ||| n == "java/lang/module/ModuleReader"@
    ||| n == "java/net/DatagramSocket"@
    ||| n == "java/net/MulticastSocket"@
    ||| n == "java/net/ServerSocket"@
    ||| n == "java/net/Socket"@
    ||| n == "java/net/URLClassLoader"@
    ||| n == "java/nio/channels/AsynchronousByteChannel"@
    ||| n == "java/nio/channels/AsynchronousChannel"@
    ||| n == "java/nio/channels/AsynchronousFileChannel"@
    ||| n == "java/nio/channels/AsynchronousServerSocketChannel"@
    ||| n == "java/nio/channels/AsynchronousSocketChannel"@
    ||| n == "java/nio/channels/ByteChannel"@
    ||| n == "java/nio/channels/Channel"@
    ||| n == "java/nio/channels/DatagramChannel"@
    ||| n == "java/nio/channels/FileChannel"@
    ||| n == "java/nio/channels/FileLock"@
    ||| n == "java/nio/channels/GatheringByteChannel"@
    ||| n == "java/nio/channels/InterruptibleChannel"@
    ||| n == "java/nio/channels/MulticastChannel"@
    ||| n == "java/nio/channels/NetworkChannel"@
    ||| n == "java/nio/channels/ReadableByteChannel"@
    ||| n == "java/nio/channels/ScatteringByteChannel"@
    ||| n == "java/nio/channels/SeekableByteChannel"@
    ||| n == "java/nio/channels/SelectableChannel"@
    ||| n == "java/nio/channels/Selector"@
    ||| n == "java/nio/channels/ServerSocketChannel"@
    ||| n == "java/nio/channels/SocketChannel"@
    ||| n == "java/nio/channels/WritableByteChannel"@
    ||| n == "java/nio/channels/spi/AbstractInterruptibleChannel"@
    ||| n == "java/nio/channels/spi/AbstractSelectableChannel"@
    ||| n == "java/nio/channels/spi/AbstractSelector"@
    ||| n == "java/nio/file/DirectoryStream"@
    ||| n == "java/nio/file/FileSystem"@
    ||| n == "java/nio/file/SecureDirectoryStream"@
    ||| n == "java/nio/file/WatchService"@
    ||| n == "java/rmi/server/LogStream"@
    ||| n == "java/util/Formatter"@
    ||| n == "java/util/Scanner"@
    ||| n == "java/util/concurrent/AbstractExecutorService"@
    ||| n == "java/util/concurrent/ExecutorService"@
    ||| n == "java/util/concurrent/ForkJoinPool"@
    ||| n == "java/util/concurrent/ScheduledExecutorService"@
    ||| n == "java/util/concurrent/ScheduledThreadPoolExecutor"@
    ||| n == "java/util/concurrent/StructuredTaskScope"@
    ||| n == "java/util/concurrent/SubmissionPublisher"@
    ||| n == "java/util/concurrent/ThreadPoolExecutor"@
    ||| n == "java/util/jar/JarFile"@
    ||| n == "java/util/zip/ZipFile"@
    ||| n == "javax/imageio/stream/FileCacheImageInputStream"@
    ||| n == "javax/imageio/stream/FileCacheImageOutputStream"@
    ||| n == "javax/imageio/stream/FileImageInputStream"@
    ||| n == "javax/imageio/stream/FileImageOutputStream"@
    ||| n == "javax/imageio/stream/ImageInputStream"@
    ||| n == "javax/imageio/stream/ImageOutputStream"@
    ||| n == "javax/management/loading/MLet"@
    ||| n == "javax/management/loading/PrivateMLet"@
    ||| n == "javax/management/remote/JMXConnector"@
    ||| n == "javax/management/remote/rmi/RMIConnection"@
    ||| n == "javax/management/remote/rmi/RMIConnectionImpl"@
    ||| n == "javax/management/remote/rmi/RMIConnectionImpl_Stub"@
    ||| n == "javax/management/remote/rmi/RMIConnector"@
    ||| n == "javax/management/remote/rmi/RMIJRMPServerImpl"@
    ||| n == "javax/management/remote/rmi/RMIServerImpl"@
    ||| n == "javax/net/ssl/SSLServerSocket"@
    ||| n == "javax/net/ssl/SSLSocket"@
    ||| n == "javax/sound/midi/MidiDevice"@
    ||| n == "javax/sound/midi/MidiDeviceReceiver"@
    ||| n == "javax/sound/midi/MidiDeviceTransmitter"@
    ||| n == "javax/sound/midi/Receiver"@
    ||| n == "javax/sound/midi/Sequencer"@
    ||| n == "javax/sound/midi/Synthesizer"@
    ||| n == "javax/sound/midi/Transmitter"@
    ||| n == "javax/sound/sampled/AudioInputStream"@
    ||| n == "javax/sound/sampled/Clip"@
    ||| n == "javax/sound/sampled/DataLine"@
    ||| n == "javax/sound/sampled/Line"@
    ||| n == "javax/sound/sampled/Mixer"@
    ||| n == "javax/sound/sampled/Port"@
    ||| n == "javax/sound/sampled/SourceDataLine"@
    ||| n == "javax/sound/sampled/TargetDataLine"@
    ||| n == "javax/tools/ForwardingJavaFileManager"@
    ||| n == "javax/tools/JavaFileManager"@
    ||| n == "javax/tools/StandardJavaFileManager"@
}

/// Whether the class is a JDK type known to be `AutoCloseable`.
pub fn is_known_autocloseable_name(name: &str) -> (res: bool)
    ensures
        res == known_autocloseable_spec(name@),
{
    str_eq(name, "java/lang/AutoCloseable") ||
        str_eq(name, "java/io/Closeable") ||
        str_eq(name, "java/beans/XMLDecoder") ||
        str_eq(name, "java/beans/XMLEncoder") ||
        str_eq(name, "java/io/InputStream") ||
        str_eq(name, "java/io/FileInputStream") ||
        str_eq(name, "java/io/BufferedInputStream") ||
        str_eq(name, "java/io/DataInputStream") ||
        str_eq(name, "java/io/FilterInputStream") ||
        str_eq(name, "java/io/LineNumberInputStream") ||
        str_eq(name, "java/io/ObjectInput") ||
        str_eq(name, "java/io/ObjectInputStream") ||
        str_eq(name, "java/io/PipedInputStream") ||
        str_eq(name, "java/io/PushbackInputStream") ||
        str_eq(name, "java/io/SequenceInputStream") ||
        str_eq(name, "java/security/DigestInputStream") ||
        str_eq(name, "java/util/zip/CheckedInputStream") ||
        str_eq(name, "java/util/zip/DeflaterInputStream") ||
        str_eq(name, "java/util/zip/GZIPInputStream") ||
        str_eq(name, "java/util/zip/InflaterInputStream") ||
        str_eq(name, "java/util/zip/ZipInputStream") ||
        str_eq(name, "java/util/jar/JarInputStream") ||
        str_eq(name, "javax/crypto/CipherInputStream") ||
        str_eq(name, "javax/swing/ProgressMonitorInputStream") ||
        str_eq(name, "java/io/OutputStream") ||
        str_eq(name, "java/io/FileOutputStream") ||
        str_eq(name, "java/io/BufferedOutputStream") ||
        str_eq(name, "java/io/DataOutputStream") ||
        str_eq(name, "java/io/FilterOutputStream") ||
        str_eq(name, "java/io/ObjectOutput") ||
        str_eq(name, "java/io/ObjectOutputStream") ||
        str_eq(name, "java/io/PipedOutputStream") ||
        str_eq(name, "java/io/PrintStream") ||
        str_eq(name, "java/security/DigestOutputStream") ||
        str_eq(name, "java/util/zip/CheckedOutputStream") ||
        str_eq(name, "java/util/zip/DeflaterOutputStream") ||
        str_eq(name, "java/util/zip/GZIPOutputStream") ||
        str_eq(name, "java/util/zip/InflaterOutputStream") ||
        str_eq(name, "java/util/zip/ZipOutputStream") ||
        str_eq(name, "java/util/jar/JarOutputStream") ||
        str_eq(name, "javax/crypto/CipherOutputStream") ||
        str_eq(name, "java/io/Reader") ||
        str_eq(name, "java/io/FileReader") ||
        str_eq(name, "java/io/BufferedReader") ||
        str_eq(name, "java/io/InputStreamReader") ||
        str_eq(name, "java/io/FilterReader") ||
        str_eq(name, "java/io/LineNumberReader") ||
        str_eq(name, "java/io/PipedReader") ||
        str_eq(name, "java/io/PushbackReader") ||
        str_eq(name, "java/io/Writer") ||
        str_eq(name, "java/io/FileWriter") ||
        str_eq(name, "java/io/BufferedWriter") ||
        str_eq(name, "java/io/OutputStreamWriter") ||
        str_eq(name, "java/io/FilterWriter") ||
        str_eq(name, "java/io/PipedWriter") ||
        str_eq(name, "java/io/PrintWriter") ||
        str_eq(name, "java/io/RandomAccessFile") ||
        str_eq(name, "java/sql/Connection") ||
        str_eq(name, "java/sql/Statement") ||
        str_eq(name, "java/sql/PreparedStatement") ||
        str_eq(name, "java/sql/CallableStatement") ||
        str_eq(name, "java/sql/ResultSet") ||
        str_eq(name, "java/lang/foreign/Arena") ||
        str_eq(name, "java/lang/module/ModuleReader") ||
        str_eq(name, "java/net/DatagramSocket") ||
        str_eq(name, "java/net/MulticastSocket") ||
        str_eq(name, "java/net/ServerSocket") ||
        str_eq(name, "java/net/Socket") ||
        str_eq(name, "java/net/URLClassLoader") ||
        str_eq(name, "java/nio/channels/AsynchronousByteChannel") ||
        str_eq(name, "java/nio/channels/AsynchronousChannel") ||
        str_eq(name, "java/nio/channels/AsynchronousFileChannel") ||
        str_eq(name, "java/nio/channels/AsynchronousServerSocketChannel") ||
        str_eq(name, "java/nio/channels/AsynchronousSocketChannel") ||
        str_eq(name, "java/nio/channels/ByteChannel") ||
        str_eq(name, "java/nio/channels/Channel") ||
        str_eq(name, "java/nio/channels/DatagramChannel") ||
        str_eq(name, "java/nio/channels/FileChannel") ||
        str_eq(name, "java/nio/channels/FileLock") ||
        str_eq(name, "java/nio/channels/GatheringByteChannel") ||
        str_eq(name, "java/nio/channels/InterruptibleChannel") ||
        str_eq(name, "java/nio/channels/MulticastChannel") ||
        str_eq(name, "java/nio/channels/NetworkChannel") ||
        str_eq(name, "java/nio/channels/ReadableByteChannel") ||
        str_eq(name, "java/nio/channels/ScatteringByteChannel") ||
        str_eq(name, "java/nio/channels/SeekableByteChannel") ||
        str_eq(name, "java/nio/channels/SelectableChannel") ||
        str_eq(name, "java/nio/channels/Selector") ||
        str_eq(name, "java/nio/channels/ServerSocketChannel") ||
        str_eq(name, "java/nio/channels/SocketChannel") ||
        str_eq(name, "java/nio/channels/WritableByteChannel") ||
        str_eq(name, "java/nio/channels/spi/AbstractInterruptibleChannel") ||
        str_eq(name, "java/nio/channels/spi/AbstractSelectableChannel") ||
        str_eq(name, "java/nio/channels/spi/AbstractSelector") ||
        str_eq(name, "java/nio/file/DirectoryStream") ||
        str_eq(name, "java/nio/file/FileSystem") ||
        str_eq(name, "java/nio/file/SecureDirectoryStream") ||
        str_eq(name, "java/nio/file/WatchService") ||
        str_eq(name, "java/rmi/server/LogStream") ||
        str_eq(name, "java/util/Formatter") ||
        str_eq(name, "java/util/Scanner") ||
        str_eq(name, "java/util/concurrent/AbstractExecutorService") ||
        str_eq(name, "java/util/concurrent/ExecutorService") ||
        str_eq(name, "java/util/concurrent/ForkJoinPool") ||
        str_eq(name, "java/util/concurrent/ScheduledExecutorService") ||
        str_eq(name, "java/util/concurrent/ScheduledThreadPoolExecutor") ||
        str_eq(name, "java/util/concurrent/StructuredTaskScope") ||
        str_eq(name, "java/util/concurrent/SubmissionPublisher") ||
        str_eq(name, "java/util/concurrent/ThreadPoolExecutor") ||
        str_eq(name, "java/util/jar/JarFile") ||
        str_eq(name, "java/util/zip/ZipFile") ||
        str_eq(name, "javax/imageio/stream/FileCacheImageInputStream") ||
        str_eq(name, "javax/imageio/stream/FileCacheImageOutputStream") ||
        str_eq(name, "javax/imageio/stream/FileImageInputStream") ||
        str_eq(name, "javax/imageio/stream/FileImageOutputStream") ||
        str_eq(name, "javax/imageio/stream/ImageInputStream") ||
        str_eq(name, "javax/imageio/stream/ImageOutputStream") ||
        str_eq(name, "javax/management/loading/MLet") ||
        str_eq(name, "javax/management/loading/PrivateMLet") ||
        str_eq(name, "javax/management/remote/JMXConnector") ||
        str_eq(name, "javax/management/remote/rmi/RMIConnection") ||
        str_eq(name, "javax/management/remote/rmi/RMIConnectionImpl") ||
        str_eq(name, "javax/management/remote/rmi/RMIConnectionImpl_Stub") ||
        str_eq(name, "javax/management/remote/rmi/RMIConnector") ||
        str_eq(name, "javax/management/remote/rmi/RMIJRMPServerImpl") ||
        str_eq(name, "javax/management/remote/rmi/RMIServerImpl") ||
        str_eq(name, "javax/net/ssl/SSLServerSocket") ||
        str_eq(name, "javax/net/ssl/SSLSocket") ||
        str_eq(name, "javax/sound/midi/MidiDevice") ||
        str_eq(name, "javax/sound/midi/MidiDeviceReceiver") ||
        str_eq(name, "javax/sound/midi/MidiDeviceTransmitter") ||
        str_eq(name, "javax/sound/midi/Receiver") ||
        str_eq(name, "javax/sound/midi/Sequencer") ||
        str_eq(name, "javax/sound/midi/Synthesizer") ||
        str_eq(name, "javax/sound/midi/Transmitter") ||
        str_eq(name, "javax/sound/sampled/AudioInputStream") ||
        str_eq(name, "javax/sound/sampled/Clip") ||
        str_eq(name, "javax/sound/sampled/DataLine") ||
        str_eq(name, "javax/sound/sampled/Line") ||
        str_eq(name, "javax/sound/sampled/Mixer") ||
        str_eq(name, "javax/sound/sampled/Port") ||
        str_eq(name, "javax/sound/sampled/SourceDataLine") ||
        str_eq(name, "javax/sound/sampled/TargetDataLine") ||
        str_eq(name, "javax/tools/ForwardingJavaFileManager") ||
        str_eq(name, "javax/tools/JavaFileManager") ||
        str_eq(name, "javax/tools/StandardJavaFileManager")
}

/// JDK types whose `close()` releases nothing: in-memory streams, readers and writers, image caches and collection-backed streams.
pub open spec fn excluded_noop_spec(n: Seq<char>) -> bool {
    ||| n == "java/io/ByteArrayOutputStream"@
    ||| n == "java/io/ByteArrayInputStream"@
    ||| n == "java/io/StringBufferInputStream"@
    ||| n == "java/io/CharArrayWriter"@
    ||| n == "java/io/CharArrayReader"@
    ||| n == "java/io/StringWriter"@
    ||| n == "java/io/StringReader"@
    ||| n == "javax/imageio/stream/ImageInputStreamImpl"@
    ||| n == "javax/imageio/stream/ImageOutputStreamImpl"@
    ||| n == "javax/imageio/stream/MemoryCacheImageInputStream"@
    ||| n == "javax/imageio/stream/MemoryCacheImageOutputStream"@
    ||| n == "java/util/stream/BaseStream"@
    ||| n == "java/util/stream/Stream"@
    ||| n == "java/util/stream/IntStream"@
    ||| n == "java/util/stream/LongStream"@
    ||| n == "java/util/stream/DoubleStream"@
}

/// Whether the class is a JDK type whose `close()` releases nothing.
pub fn is_excluded_noop_type(name: &str) -> (res: bool)
    ensures
        res == excluded_noop_spec(name@),
{
    str_eq(name, "java/io/ByteArrayOutputStream") ||
        str_eq(name, "java/io/ByteArrayInputStream") ||
        str_eq(name, "java/io/StringBufferInputStream") ||
        str_eq(name, "java/io/CharArrayWriter") ||
        str_eq(name, "java/io/CharArrayReader") ||
        str_eq(name, "java/io/StringWriter") ||
        str_eq(name, "java/io/StringReader") ||
        str_eq(name, "javax/imageio/stream/ImageInputStreamImpl") ||
        str_eq(name, "javax/imageio/stream/ImageOutputStreamImpl") ||
        str_eq(name, "javax/imageio/stream/MemoryCacheImageInputStream") ||
        str_eq(name, "javax/imageio/stream/MemoryCacheImageOutputStream") ||
        str_eq(name, "java/util/stream/BaseStream") ||
        str_eq(name, "java/util/stream/Stream") ||
        str_eq(name, "java/util/stream/IntStream") ||
        str_eq(name, "java/util/stream/LongStream") ||
        str_eq(name, "java/util/stream/DoubleStream")
}

/// Class `k` is the last of `classes` named `name`.
pub open spec fn last_named(classes: Seq<Class>, name: Seq<char>, k: int) -> bool {
    &&& 0 <= k < classes.len()
    &&& classes[k].name@ == name
    &&& forall|j: int| k < j < classes.len() ==> classes[j].name@ != name
}

/// The class named `name` among `classes`: the last one with that name.
pub fn class_named<'a>(classes: &Vec<&'a Class>, name: &str) -> (res: Option<&'a Class>)
    ensures
        match res {
            Some(c) => exists|k: int| last_named(class_seq(classes@), name@, k) && *c == *classes@[k],
            None => forall|k: int| 0 <= k < classes@.len() ==> classes@[k].name@ != name@,
        },
{
    let mut k: usize = classes.len();
    while k > 0
        invariant
            k <= classes@.len(),
            forall|j: int| k <= j < classes@.len() ==> classes@[j].name@ != name@,
        decreases k,
    {
        if str_eq(classes[k - 1].name.as_str(), name) {
            proof {
                assert(last_named(class_seq(classes@), name@, k - 1));
            }
            return Some(classes[k - 1]);
        }
        k = k - 1;
    }
    None
}

/// `b` is the superclass or an interface of the last class named `a`.
pub open spec fn super_step(classes: Seq<Class>, a: Seq<char>, b: Seq<char>) -> bool {
    exists|k: int|
        #[trigger] last_named(classes, a, k) && ((classes[k].super_name matches Some(s) && s@ == b) || exists|i: int|
            0 <= i < classes[k].interfaces@.len() && classes[k].interfaces@[i]@ == b)
}

/// `p` steps from each name to a supertype of it.
pub open spec fn super_walk(classes: Seq<Class>, p: Seq<Seq<char>>) -> bool {
    &&& p.len() > 0
    &&& forall|i: int| 0 <= i < p.len() - 1 ==> super_step(classes, #[trigger] p[i], p[i + 1])
}

/// `to` is `from` or one of its supertypes, through the classes.
pub open spec fn supertype_reaches(classes: Seq<Class>, from: Seq<char>, to: Seq<char>) -> bool {
    exists|p: Seq<Seq<char>>| #[trigger] super_walk(classes, p) && p[0] == from && p.last() == to
}

/// A walk to `a` goes on to a supertype `b` of `a`.
pub proof fn lemma_supertype_step(classes: Seq<Class>, from: Seq<char>, a: Seq<char>, b: Seq<char>)
    requires
        supertype_reaches(classes, from, a),
        super_step(classes, a, b),
    ensures
        supertype_reaches(classes, from, b),
{
    let p = choose|p: Seq<Seq<char>>| #[trigger] super_walk(classes, p) && p[0] == from && p.last() == a;
    let q = p.push(b);
    assert forall|i: int| 0 <= i < q.len() - 1 implies super_step(classes, #[trigger] q[i], q[i + 1]) by {
        if i < p.len() - 1 {
            assert(q[i] == p[i] && q[i + 1] == p[i + 1]);
        } else {
            assert(q[i] == a);
        }
    }
    assert(super_walk(classes, q));
    assert(q[0] == from && q.last() == b);
}

/// Every name reaches itself.
pub proof fn lemma_supertype_self(classes: Seq<Class>, from: Seq<char>)
    ensures
        supertype_reaches(classes, from, from),
{
    let p = seq![from];
    assert(super_walk(classes, p));
}

/// The superclass and interface names of a class, in that order.
pub open spec fn class_supertypes(c: Class) -> Seq<Seq<char>> {
    (match c.super_name {
        Some(s) => seq![s@],
        None => Seq::<Seq<char>>::empty(),
    }) + c.interfaces@.map_values(|i: String| i@)
}

/// Every superclass and interface name the classes mention, class by class.
pub open spec fn all_supertypes(classes: Seq<Class>) -> Seq<Seq<char>>
    decreases classes.len(),
{
    if classes.len() == 0 {
        Seq::empty()
    } else {
        all_supertypes(classes.drop_last()) + class_supertypes(classes.last())
    }
}

/// A supertype named by class `k` is among `all_supertypes`.
pub proof fn lemma_in_all_supertypes(classes: Seq<Class>, k: int, b: Seq<char>)
    requires
        0 <= k < classes.len(),
        (classes[k].super_name matches Some(s) && s@ == b) || exists|i: int|
            0 <= i < classes[k].interfaces@.len() && classes[k].interfaces@[i]@ == b,
    ensures
        all_supertypes(classes).contains(b),
    decreases classes.len(),
{
    let own = class_supertypes(classes.last());
    let rest = all_supertypes(classes.drop_last());
    if k == classes.len() - 1 {
        let c = classes.last();
        let head: Seq<Seq<char>> = match c.super_name {
            Some(s) => seq![s@],
            None => Seq::<Seq<char>>::empty(),
        };
        if c.super_name matches Some(s) && s@ == b {
            assert(own[0] == b);
            assert((rest + own)[rest.len() as int] == b);
        } else {
            let i = choose|i: int| 0 <= i < c.interfaces@.len() && c.interfaces@[i]@ == b;
            assert(own[head.len() + i] == b);
            assert((rest + own)[rest.len() + head.len() + i] == b);
        }
    } else {
        lemma_in_all_supertypes(classes.drop_last(), k, b);
        let j = choose|j: int| 0 <= j < rest.len() && rest[j] == b;
        assert((rest + own)[j] == b);
    }
}

/// `c` is `from` or a name some class gives as a superclass or interface.
pub open spec fn from_or_supertype(classes: Seq<Class>, from: Seq<char>, c: Seq<char>) -> bool {
    c == from || all_supertypes(classes).contains(c)
}

/// A strictly ascending list of names, each `from` or a supertype name of
/// the classes, is no longer than those names and `from` together.
pub proof fn lemma_supertype_names_bound(v: Seq<String>, classes: Seq<Class>, from: Seq<char>)
    requires
        lex_sorted(views(v)),
        forall|i: int| 0 <= i < v.len() ==> from_or_supertype(classes, from, #[trigger] v[i]@),
    ensures
        v.len() <= all_supertypes(classes).len() + 1,
{
    let vk = views(v);
    let uk = seq![from] + all_supertypes(classes);
    assert forall|a: int, b: int| 0 <= a < b < vk.len() implies vk[a] != vk[b] by {
        lemma_lex_lt_irreflexive(vk[a]);
    }
    assert(vk.no_duplicates());
    vk.unique_seq_to_set();
    assert forall|k: Seq<char>| vk.to_set().contains(k) implies uk.to_set().contains(k) by {
        let a = choose|a: int| 0 <= a < vk.len() && vk[a] == k;
        assert(from_or_supertype(classes, from, v[a]@));
        if k == from {
            assert(uk[0] == k);
        } else {
            let j = choose|j: int| 0 <= j < all_supertypes(classes).len() && all_supertypes(classes)[j] == k;
            assert(uk[1 + j] == k);
        }
    }
    uk.lemma_cardinality_of_set();
    vstd::seq_lib::seq_to_set_is_finite(uk);
    vstd::set_lib::lemma_len_subset(vk.to_set(), uk.to_set());
}

/// Adds `x` to the walk when new: to the ascending `visited` and to the back
/// of `queue`.
fn visit_name(visited: &mut Vec<String>, queue: &mut Vec<String>, x: &String)
    requires
        lex_sorted(views(old(visited)@)),
        old(queue)@.len() == old(visited)@.len(),
        forall|c: Seq<char>| #[trigger] has_name(old(queue)@, c) == has_name(old(visited)@, c),
    ensures
        lex_sorted(views(final(visited)@)),
        final(queue)@.len() == final(visited)@.len(),
        forall|c: Seq<char>| #[trigger] has_name(final(visited)@, c) == (has_name(old(visited)@, c) || c == x@),
        forall|c: Seq<char>| #[trigger] has_name(final(queue)@, c) == has_name(final(visited)@, c),
        final(queue)@.len() >= old(queue)@.len(),
        forall|i: int| 0 <= i < old(queue)@.len() ==> final(queue)@[i] == old(queue)@[i],
        forall|i: int| old(queue)@.len() <= i < final(queue)@.len() ==> final(queue)@[i]@ == x@,
{
    let ghost oq = queue@;
    let before = visited.len();
    insert_name(visited, x);
    if visited.len() > before {
        queue.push(x.clone());
    }
    proof {
        assert forall|c: Seq<char>| #[trigger] has_name(queue@, c) == has_name(visited@, c) by {
            if queue@.len() > oq.len() {
                if has_name(queue@, c) {
                    let i = choose|i: int| 0 <= i < queue@.len() && queue@[i]@ == c;
                    if i < oq.len() {
                        assert(oq[i] == queue@[i]);
                        assert(has_name(oq, c));
                    }
                }
                if has_name(oq, c) {
                    let i = choose|i: int| 0 <= i < oq.len() && oq[i]@ == c;
                    assert(queue@[i] == oq[i]);
                }
                if c == x@ {
                    assert(queue@[oq.len() as int]@ == x@);
                }
            }
        }
    }
}

/// A set that holds the start of a walk and every supertype of its members
/// holds the end of the walk.
pub proof fn lemma_walk_inside(classes: Seq<Class>, inside: Set<Seq<char>>, p: Seq<Seq<char>>)
    requires
        super_walk(classes, p),
        inside.contains(p[0]),
        forall|a: Seq<char>, b: Seq<char>| inside.contains(a) && #[trigger] super_step(classes, a, b) ==> inside.contains(b),
    ensures
        inside.contains(p.last()),
    decreases p.len(),
{
    if p.len() > 1 {
        let q = p.drop_last();
        assert forall|i: int| 0 <= i < q.len() - 1 implies super_step(classes, #[trigger] q[i], q[i + 1]) by {
            assert(q[i] == p[i] && q[i + 1] == p[i + 1]);
            assert(super_step(classes, p[i], p[i + 1]));
        }
        lemma_walk_inside(classes, inside, q);
        assert(super_step(classes, p[p.len() - 2], p[p.len() - 1]));
    }
}

/// Breadth-first walk up from `name`: `name` and every name its superclasses
/// and interfaces lead to (through the last class of each name), ascending,
/// each once.
#[verifier::spinoff_prover]
pub fn supertype_closure(name: &str, classes: &Vec<&Class>) -> (res: Vec<String>)
    ensures
        forall|c: Seq<char>| #[trigger] has_name(res@, c) == supertype_reaches(class_seq(classes@), name@, c),
{
    let ghost cs = class_seq(classes@);
    let ghost bound = all_supertypes(cs).len() + 1;
    let start = name.to_owned();
    let mut visited: Vec<String> = Vec::new();
    let mut queue: Vec<String> = Vec::new();
    visit_name(&mut visited, &mut queue, &start);
    proof {
        lemma_supertype_self(cs, name@);
        assert(has_name(visited@, name@));
        assert forall|i: int| 0 <= i < visited@.len() implies from_or_supertype(cs, name@, #[trigger] visited@[i]@) by {
            assert(has_name(visited@, visited@[i]@));
        }
        assert(queue@[0]@ == name@);
    }
    proof {
        lemma_supertype_names_bound(visited@, cs, name@);
    }
    let mut head: usize = 0;
    while head < queue.len()
        invariant
            cs == class_seq(classes@),
            cs.len() == classes@.len(),
            bound == all_supertypes(cs).len() + 1,
            lex_sorted(views(visited@)),
            queue@.len() == visited@.len(),
            visited@.len() <= bound,
            head <= queue@.len(),
            has_name(visited@, name@),
            forall|c: Seq<char>| #[trigger] has_name(queue@, c) == has_name(visited@, c),
            forall|i: int| 0 <= i < visited@.len() ==> from_or_supertype(cs, name@, #[trigger] visited@[i]@),
            forall|i: int| 0 <= i < queue@.len() ==> supertype_reaches(cs, name@, #[trigger] queue@[i]@),
            forall|i: int, b: Seq<char>| 0 <= i < head && #[trigger] super_step(cs, queue@[i]@, b) ==> has_name(visited@, b),
        decreases bound - head,
    {
        let node = queue[head].clone();
        let ghost h = head;
        head = head + 1;
        proof {
            lemma_supertype_names_bound(visited@, cs, name@);
        }
        match class_named(classes, node.as_str()) {
            Some(class) => {
                let ghost k = choose|k: int| last_named(cs, node@, k) && *class == *classes@[k];
                proof {
                    assert(cs[k] == *classes@[k]);
                }
                let mut j: usize = 0;
                let mut first = true;
                let total = class.interfaces.len();
                while first || j < total
                    invariant
                        visited@.len() <= bound,
                        j <= total,
                        first ==> j == 0,
                        cs == class_seq(classes@),
                        cs.len() == classes@.len(),
                        bound == all_supertypes(cs).len() + 1,
                        last_named(cs, node@, k),
                        cs[k] == *class,
                        total == class.interfaces@.len(),
                        lex_sorted(views(visited@)),
                        queue@.len() == visited@.len(),
                        h + 1 == head,
                        head <= queue@.len(),
                        queue@[h as int]@ == node@,
                        has_name(visited@, name@),
                        forall|c: Seq<char>| #[trigger] has_name(queue@, c) == has_name(visited@, c),
                        forall|i: int| 0 <= i < visited@.len() ==> from_or_supertype(cs, name@, #[trigger] visited@[i]@),
                        forall|i: int| 0 <= i < queue@.len() ==> supertype_reaches(cs, name@, #[trigger] queue@[i]@),
                        forall|i: int, b: Seq<char>| 0 <= i < h && #[trigger] super_step(cs, queue@[i]@, b) ==> has_name(visited@, b),
                        !first ==> (class.super_name matches Some(s) ==> has_name(visited@, s@)),
                        forall|t: int| 0 <= t < j ==> has_name(visited@, #[trigger] class.interfaces@[t]@),
                    decreases (if first { 1int } else { 0int }) + total - j,
                {
                    let was_first = first;
                    let ghost j0 = j;
                    let next: Option<&String> = if first {
                        first = false;
                        match &class.super_name {
                            Some(s) => Some(s),
                            None => None,
                        }
                    } else {
                        j = j + 1;
                        Some(&class.interfaces[j - 1])
                    };
                    match next {
                        Some(x) => {
                            let ghost ov = visited@;
                            let ghost oq = queue@;
                            proof {
                                assert(super_step(cs, node@, x@));
                                assert(supertype_reaches(cs, name@, node@)) by {
                                    assert(supertype_reaches(cs, name@, queue@[h as int]@));
                                }
                                lemma_supertype_step(cs, name@, node@, x@);
                                if was_first {
                                    lemma_in_all_supertypes(cs, k, x@);
                                } else {
                                    assert(cs[k].interfaces@[j0 as int]@ == x@);
                                    lemma_in_all_supertypes(cs, k, x@);
                                }
                            }
                            visit_name(&mut visited, &mut queue, x);
                            proof {
                                assert forall|i: int| 0 <= i < visited@.len() implies from_or_supertype(cs, name@, #[trigger] visited@[i]@) by {
                                    assert(has_name(visited@, visited@[i]@));
                                    if has_name(ov, visited@[i]@) {
                                        let m = choose|m: int| 0 <= m < ov.len() && ov[m]@ == visited@[i]@;
                                        assert(from_or_supertype(cs, name@, ov[m]@));
                                    }
                                }
                                lemma_supertype_names_bound(visited@, cs, name@);
                                assert forall|i: int| 0 <= i < queue@.len() implies supertype_reaches(cs, name@, #[trigger] queue@[i]@) by {
                                    if i < oq.len() {
                                        assert(queue@[i] == oq[i]);
                                    }
                                }
                                assert(queue@[h as int] == oq[h as int]);
                                assert forall|i: int, b: Seq<char>| 0 <= i < h && #[trigger] super_step(cs, queue@[i]@, b) implies has_name(visited@, b) by {
                                    assert(queue@[i] == oq[i]);
                                    assert(has_name(ov, b));
                                    let m = choose|m: int| 0 <= m < ov.len() && ov[m]@ == b;
                                }
                                assert(has_name(ov, name@));
                                let m0 = choose|m: int| 0 <= m < ov.len() && ov[m]@ == name@;
                                if !was_first {
                                    match &class.super_name {
                                        Some(s) => {
                                            assert(has_name(ov, s@));
                                            let m = choose|m: int| 0 <= m < ov.len() && ov[m]@ == s@;
                                        },
                                        None => {},
                                    }
                                }
                                assert forall|t: int| 0 <= t < j implies has_name(visited@, #[trigger] class.interfaces@[t]@) by {
                                    if t < j0 {
                                        assert(has_name(ov, class.interfaces@[t]@));
                                        let m = choose|m: int| 0 <= m < ov.len() && ov[m]@ == class.interfaces@[t]@;
                                    } else {
                                        assert(class.interfaces@[t]@ == x@);
                                    }
                                }
                            }
                        },
                        None => {},
                    }
                }
                proof {
                    assert forall|b: Seq<char>| super_step(cs, node@, b) implies has_name(visited@, b) by {
                        let k2 = choose|k2: int|
                            #[trigger] last_named(cs, node@, k2) && ((cs[k2].super_name matches Some(s) && s@ == b) || exists|i: int|
                                0 <= i < cs[k2].interfaces@.len() && cs[k2].interfaces@[i]@ == b);
                        if k2 < k {
                            assert(cs[k].name@ != node@);
                        } else if k2 > k {
                            assert(cs[k2].name@ != node@);
                        }
                        if !(cs[k].super_name matches Some(s) && s@ == b) {
                            let i = choose|i: int| 0 <= i < cs[k].interfaces@.len() && cs[k].interfaces@[i]@ == b;
                            assert(has_name(visited@, class.interfaces@[i]@));
                        }
                    }
                }
            },
            None => {
                proof {
                    assert forall|b: Seq<char>| !super_step(cs, node@, b) by {
                        if super_step(cs, node@, b) {
                            let k2 = choose|k2: int|
                                #[trigger] last_named(cs, node@, k2) && ((cs[k2].super_name matches Some(s) && s@ == b) || exists|i: int|
                                    0 <= i < cs[k2].interfaces@.len() && cs[k2].interfaces@[i]@ == b);
                            assert(classes@[k2].name@ == node@);
                        }
                    }
                }
            },
        }
        proof {
            assert forall|i: int, b: Seq<char>| 0 <= i < head && #[trigger] super_step(cs, queue@[i]@, b) implies has_name(visited@, b) by {
                if i == h {
                    assert(queue@[i]@ == node@);
                }
            }
        }
    }
    proof {
        let inside = Set::new(|c: Seq<char>| has_name(visited@, c));
        assert forall|a: Seq<char>, b: Seq<char>| inside.contains(a) && #[trigger] super_step(cs, a, b) implies inside.contains(b) by {
            assert(has_name(queue@, a));
            let i = choose|i: int| 0 <= i < queue@.len() && queue@[i]@ == a;
            assert(super_step(cs, queue@[i]@, b));
        }
        assert forall|c: Seq<char>| #[trigger] has_name(visited@, c) == supertype_reaches(cs, name@, c) by {
            if supertype_reaches(cs, name@, c) {
                let p = choose|p: Seq<Seq<char>>| #[trigger] super_walk(cs, p) && p[0] == name@ && p.last() == c;
                lemma_walk_inside(cs, inside, p);
                assert(has_name(queue@, name@));
            }
            if has_name(visited@, c) {
                assert(has_name(queue@, c));
                let i = choose|i: int| 0 <= i < queue@.len() && queue@[i]@ == c;
                assert(supertype_reaches(cs, name@, queue@[i]@));
            }
        }
    }
    visited
}

/// The class is `AutoCloseable`: a known JDK type is among the names its
/// superclasses and interfaces lead to (itself included).
pub open spec fn autocloseable_type_spec(classes: Seq<Class>, name: Seq<char>) -> bool {
    exists|t: Seq<char>| known_autocloseable_spec(t) && supertype_reaches(classes, name, t)
}

/// Whether the class is `AutoCloseable`: a known JDK type, or one whose superclasses and interfaces among `classes` lead to one.
pub fn is_autocloseable_type(name: &str, classes: &Vec<&Class>) -> (res: bool)
    ensures
        res == autocloseable_type_spec(class_seq(classes@), name@),
{
    let names = supertype_closure(name, classes);
    let mut i: usize = 0;
    while i < names.len()
        invariant
            i <= names@.len(),
            forall|j: int| 0 <= j < i ==> !known_autocloseable_spec(#[trigger] names@[j]@),
            forall|c: Seq<char>| #[trigger] has_name(names@, c) == supertype_reaches(class_seq(classes@), name@, c),
        decreases names.len() - i,
    {
        if is_known_autocloseable_name(names[i].as_str()) {
            proof {
                assert(has_name(names@, names@[i as int]@));
                assert(supertype_reaches(class_seq(classes@), name@, names@[i as int]@));
                assert(known_autocloseable_spec(names@[i as int]@));
            }
            return true;
        }
        i = i + 1;
    }
    proof {
        assert forall|t: Seq<char>| known_autocloseable_spec(t) implies !supertype_reaches(class_seq(classes@), name@, t) by {
            if supertype_reaches(class_seq(classes@), name@, t) {
                assert(has_name(names@, t));
                let j = choose|j: int| 0 <= j < names@.len() && names@[j]@ == t;
            }
        }
    }
    false
}

/// The call is `close()`.
pub open spec fn close_call_spec(call: CallSite) -> bool {
    call.name@ == "close"@ && call.descriptor@ == "()V"@
}

/// Whether the call is `close()`.
pub fn is_close_call(call: &CallSite) -> (res: bool)
    ensures
        res == close_call_spec(*call),
{
    str_eq(call.name.as_str(), "close") && str_eq(call.descriptor.as_str(), "()V")
}

/// Whether the call constructs an `AutoCloseable` type.
pub fn is_autocloseable_constructor(call: &CallSite, classes: &Vec<&Class>) -> (res: bool)
    ensures
        res == (call.name@ == "<init>"@ && autocloseable_type_spec(class_seq(classes@), call.owner@)),
{
    str_eq(call.name.as_str(), "<init>") && is_autocloseable_type(call.owner.as_str(), classes)
}

/// The idiom suggested for a class: `.use {}` for Kotlin sources, otherwise
/// try-with-resources.
pub open spec fn guidance_spec(c: Class) -> Seq<char> {
    if c.source_file is Some && seq_ends_with(c.source_file->0@, ".kt"@) {
        ".use {}"@
    } else {
        "try-with-resources"@
    }
}

/// The message for a resource created in method `m` of `c`.
pub open spec fn closeable_message(c: Class, m: Method) -> Seq<char> {
    about_method("AutoCloseable created in "@, c, m, " may not be closed on all paths; use "@) + guidance_spec(c)
        + " or call close() in a finally block."@
}

/// The finding reports a resource of method `m` of `c`, at the line of some
/// offset.
pub open spec fn closeable_finding(uri: Option<Seq<char>>, c: Class, m: Method, f: FindingView) -> bool {
    exists|o: u32|
        #![trigger crate::ir::line_for_offset_spec(m.line_numbers@, o)]
        f == FindingView {
            rule_id: None,
            message: closeable_message(c, m),
            locations: seq![method_location_spec(c.name@, m.name@, m.descriptor@, uri, crate::ir::line_for_offset_spec(m.line_numbers@, o))],
        }
}

/// The creation offsets of the `AutoCloseable` resources of the method that
/// some path leaves unclosed, ascending.
pub fn analyze_closeable_lifecycle(method: &Method, classes: &Vec<&Class>) -> (res: Result<Vec<u32>, AnalysisError>)
    ensures
        res matches Ok(v) ==> crate::dataflow::worklist::strictly_increasing(v@),
{
    analyze_lifecycle(ResourceKind::AutoCloseable, method, classes)
}

/// The finding is about a method with bytecode of an analysis-target class.
pub open spec fn reports_unclosed(ctx: AnalysisContext, f: FindingView) -> bool {
    exists|ci: int, mi: int|
        #![trigger ctx.targets()[ci].methods@[mi]]
        0 <= ci < ctx.targets().len() && 0 <= mi < ctx.targets()[ci].methods@.len() && closeable_finding(
            ctx.class_uri(ctx.targets()[ci]),
            ctx.targets()[ci],
            ctx.targets()[ci].methods@[mi],
            f,
        )
}

/// Reports locally created `AutoCloseable` resources not closed on every path.
#[derive(Clone, Copy, Debug)]
pub struct UnmanagedAutocloseableRule;

impl UnmanagedAutocloseableRule {
    /// The rule's id, name and description.
    pub fn metadata(&self) -> (res: RuleMetadata)
        ensures
            res.id@ == "AUTOCLOSEABLE_NOT_CLOSED"@,
    {
        RuleMetadata {
            id: "AUTOCLOSEABLE_NOT_CLOSED",
            name: "AutoCloseable not closed",
            description: "Locally created AutoCloseable instances should be closed on every exit path",
        }
    }

    /// One finding per unclosed creation site of every method with bytecode
    /// and blocks of the analysis-target classes; supertypes are looked up
    /// among all classes.
    pub fn run(&self, context: &AnalysisContext) -> (res: Result<Vec<Finding>, AnalysisError>)
        ensures
            res matches Ok(v) ==> forall|i: int|
                0 <= i < v@.len() ==> reports_unclosed(*context, #[trigger] finding_views(v@)[i]),
    {
        let all = context.all_classes();
        let classes = context.analysis_target_classes();
        let mut results: Vec<Finding> = Vec::new();
        proof {
            reveal_strlit(".kt");
            reveal_strlit(".use {}");
            reveal_strlit("try-with-resources");
        }
        let mut ci: usize = 0;
        while ci < classes.len()
            invariant
                ci <= classes@.len(),
                classes@ == context.targets(),
                forall|i: int|
                    0 <= i < results@.len() ==> reports_unclosed(*context, #[trigger] finding_views(results@)[i]),
            decreases classes.len() - ci,
        {
            let class = &classes[ci];
            let uri = context.class_artifact_uri(class);
            let guidance: &str = match &class.source_file {
                Some(f) => if ends_with(f.as_str(), ".kt") { ".use {}" } else { "try-with-resources" },
                None => "try-with-resources",
            };
            assert(guidance@ == guidance_spec(*class));
            let mut mi: usize = 0;
            while mi < class.methods.len()
                invariant
                    ci < classes@.len(),
                    classes@ == context.targets(),
                    *class == classes@[ci as int],
                    opt_view(uri) == context.class_uri(*class),
                    guidance@ == guidance_spec(*class),
                    mi <= class.methods@.len(),
                    forall|i: int|
                        0 <= i < results@.len() ==> reports_unclosed(*context, #[trigger] finding_views(results@)[i]),
                decreases class.methods.len() - mi,
            {
                let method = &class.methods[mi];
                if method.bytecode.len() > 0 && method.cfg.blocks.len() > 0 {
                    let offsets = analyze_closeable_lifecycle(method, &all)?;
                    let mut k: usize = 0;
                    while k < offsets.len()
                        invariant
                            ci < classes@.len(),
                            classes@ == context.targets(),
                            *class == classes@[ci as int],
                            mi < class.methods@.len(),
                            *method == class.methods@[mi as int],
                            opt_view(uri) == context.class_uri(*class),
                            guidance@ == guidance_spec(*class),
                            forall|i: int|
                                0 <= i < results@.len() ==> reports_unclosed(*context, #[trigger] finding_views(results@)[i]),
                        decreases offsets.len() - k,
                    {
                        let mut message = crate::rules::call_scan::method_message("AutoCloseable created in ", class, method, " may not be closed on all paths; use ");
                        message.append(guidance);
                        message.append(" or call close() in a finally block.");
                        let line = method.line_for_offset(offsets[k]);
                        let artifact_uri: Option<&str> = match &uri {
                            Some(s) => Some(s.as_str()),
                            None => None,
                        };
                        let location = method_location_with_line(class.name.as_str(), method.name.as_str(), method.descriptor.as_str(), artifact_uri, line);
                        let f = finding(message, location);
                        let ghost fv = f@;
                        let ghost prev = finding_views(results@);
                        proof {
                            assert(closeable_finding(opt_view(uri), *class, *method, fv)) by {
                                let _ = crate::ir::line_for_offset_spec(method.line_numbers@, offsets@[k as int]);
                            }
                            assert(context.targets()[ci as int].methods@[mi as int] == *method);
                            assert(reports_unclosed(*context, fv));
                        }
                        push_finding(&mut results, f);
                        proof {
                            assert(finding_views(results@) == prev.push(fv));
                            assert forall|i: int| 0 <= i < results@.len() implies reports_unclosed(*context, #[trigger] finding_views(results@)[i]) by {
                                if i < prev.len() {
                                    assert(finding_views(results@)[i] == prev[i]);
                                } else {
                                    assert(finding_views(results@)[i] == fv);
                                }
                            }
                        }
                        k = k + 1;
                    }
                }
                mi = mi + 1;
            }
            ci = ci + 1;
        }
        Ok(results)
    }
}

} // verus!
