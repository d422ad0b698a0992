[package]
name = "tasahertsio"
version = "0.1.0"
edition = "2021"
publish = false

[dependencies]
console_error_panic_hook = "=0.1.7"
console_log = "=1.1.0"
js-sys = "=0.3.107"
leptos = { version = "=0.6.15", features = ["csr"] }
log = "=0.4.35"
rustfft = "=6.4.1"
wasm-bindgen = "=0.2.130"
wasm-bindgen-futures = "=0.4.80"
web-sys = { version = "=0.3.107", features = ["AnalyserNode", "AudioBuffer", "AudioBufferSourceNode", "AudioContext", "AudioDestinationNode", "AudioNode", "AudioParam", "AudioProcessingEvent", "AudioScheduledSourceNode", "BaseAudioContext", "Blob", "CanvasGradient", "CanvasRenderingContext2d", "Document", "Element", "Event", "EventTarget", "File", "FileList", "GainNode", "HtmlCanvasElement", "HtmlElement", "HtmlInputElement", "KeyboardEvent", "MediaDevices", "MediaStream", "MediaStreamAudioSourceNode", "MediaStreamConstraints", "MediaStreamTrack", "Navigator", "Node", "ScriptProcessorNode", "Window"] }
